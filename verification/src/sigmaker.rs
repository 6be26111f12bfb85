//! Signatures: the bytes of the instructions at a place in code, with the
//! bytes that change from build to build left open, grown until no other
//! place in the code of the module matches.

use crate::decode::{constants_at, decode_at, memory_base_at, op0_kind_at};
use crate::decode::{decoded, decoded_constants, decoded_memory_base, decoded_op0_kind};
use crate::decode::{valid_bitness, BaseRegister, ConstantSpans, InstrInfo, OperandKind};
use crate::memory::{lemma_readable_prefix_bounds, readable_prefix, MemoryImage, MemoryRange};
use crate::disasm::Disasm;
use crate::error::Error;
use crate::links::Links;
use crate::memory::{bytes_at, readable};
use crate::process::{spans_fit, text_ranges, text_spans, ModuleInfo, ProcessImage};
use crate::sweep::{block_end, extent_faulty, read_block, STRIDE};
use vstd::prelude::*;
use vstd::string::StringExecFns;

verus! {

/// The most bytes that a signature covers.
pub const MAX_SIG_LENGTH: usize = 128;

/// `mask` with the positions from `lo` up to `hi` set to zero.
pub open spec fn wiped(mask: Seq<u8>, lo: int, hi: int) -> Seq<u8> {
    Seq::new(mask.len(), |i: int| if lo <= i < hi { 0u8 } else { mask[i] })
}

/// Sets the positions of `mask` from `lo` up to `hi` to zero, as far as
/// there are such positions.
fn wipe(mask: &mut Vec<u8>, lo: usize, hi: usize)
    ensures
        final(mask)@ == wiped(old(mask)@, lo as int, hi as int),
{
    let ghost before = mask@;
    let mut i: usize = lo;
    if lo >= mask.len() || lo >= hi {
        assert(mask@ =~= wiped(before, lo as int, hi as int));
        return ;
    }
    let stop: usize = if hi < mask.len() {
        hi
    } else {
        mask.len()
    };
    while i < stop
        invariant
            lo <= i <= stop,
            stop <= mask.len(),
            stop == if hi < before.len() { hi as int } else { before.len() as int },
            mask.len() == before.len(),
            mask@ == wiped(before, lo as int, i as int),
        decreases stop - i,
    {
        mask.set(i, 0);
        i += 1;
        assert(mask@ =~= wiped(before, lo as int, i as int));
    }
    assert(mask@ =~= wiped(before, lo as int, hi as int));
}

/// The register is the instruction pointer, a segment register, or none.
pub open spec fn open_base(base: BaseRegister) -> bool {
    base != BaseRegister::Other
}

/// The operand is a near branch or a far branch.
pub open spec fn branch_kind(kind: OperandKind) -> bool {
    kind != OperandKind::Other
}

/// `mask`, in which the instruction's bytes start at `from`, with the
/// displacement of the instruction left open.
pub open spec fn mem_masked(c: ConstantSpans, mask: Seq<u8>, from: int) -> Seq<u8> {
    if c.has_displacement {
        wiped(
            mask,
            from + c.displacement_offset,
            from + c.displacement_offset + c.displacement_size,
        )
    } else {
        mask
    }
}

/// `mask`, in which the instruction's bytes start at `from`, with the
/// immediate of the instruction left open behind its first `unmasked`
/// bytes, where the immediate has more bytes than that.
pub open spec fn branch_masked(c: ConstantSpans, mask: Seq<u8>, from: int, unmasked: int) -> Seq<u8> {
    if c.has_immediate && c.immediate_size > unmasked {
        wiped(
            mask,
            from + c.immediate_offset + unmasked,
            from + c.immediate_offset + c.immediate_size,
        )
    } else {
        mask
    }
}

/// `mask`, in which the instruction's bytes start at `from`, with what
/// changes from build to build left open: the displacement where the base
/// of the memory operand is the instruction pointer, a segment register or
/// none, and the immediate of a branch behind its first byte.
pub open spec fn instr_masked(
    base: BaseRegister,
    kind: OperandKind,
    c: ConstantSpans,
    mask: Seq<u8>,
    from: int,
) -> Seq<u8> {
    let m1 = if open_base(base) {
        mem_masked(c, mask, from)
    } else {
        mask
    };
    if branch_kind(kind) {
        branch_masked(c, m1, from, 1)
    } else {
        m1
    }
}

/// The end of a span of `size` positions that starts at `from + off`, held
/// within what a `usize` can say.
fn span_end(from: usize, off: usize, size: usize) -> (r: (usize, usize))
    ensures
        r.0 <= r.1,
        from + off <= usize::MAX ==> r.0 == from + off,
        from + off + size <= usize::MAX ==> r.1 == from + off + size,
        from + off > usize::MAX ==> r.0 == usize::MAX && r.1 == usize::MAX,
        from + off <= usize::MAX && from + off + size > usize::MAX ==> r.1 == usize::MAX,
{
    if off > usize::MAX - from {
        (usize::MAX, usize::MAX)
    } else if size > usize::MAX - from - off {
        (from + off, usize::MAX)
    } else {
        (from + off, from + off + size)
    }
}

/// Leaves the displacement of an instruction open in `mask`, in which the
/// instruction's bytes start at `from`.
pub fn mask_mem(offsets: &ConstantSpans, mask: &mut Vec<u8>, from: usize)
    ensures
        final(mask)@ == mem_masked(*offsets, old(mask)@, from as int),
{
    let ghost before = mask@;
    let held: usize = mask.len();
    if offsets.has_displacement {
        let (lo, hi) = span_end(from, offsets.displacement_offset, offsets.displacement_size);
        wipe(mask, lo, hi);
        proof {
            let tlo = from + offsets.displacement_offset;
            let thi = tlo + offsets.displacement_size;
            assert(before.len() == held);
            assert forall|i: int| 0 <= i < before.len() implies #[trigger] wiped(
                before,
                lo as int,
                hi as int,
            )[i] == wiped(before, tlo, thi)[i] by {}
            assert(wiped(before, lo as int, hi as int) =~= wiped(before, tlo, thi));
            assert(mask@ =~= mem_masked(*offsets, before, from as int));
        }
    }
}

/// Leaves the immediate of an instruction open in `mask`, in which the
/// instruction's bytes start at `from`, behind its first
/// `unmasked_branch_size` bytes, where it has more bytes than that.
pub fn mask_branch(
    offsets: &ConstantSpans,
    mask: &mut Vec<u8>,
    from: usize,
    unmasked_branch_size: usize,
)
    ensures
        final(mask)@ == branch_masked(
            *offsets,
            old(mask)@,
            from as int,
            unmasked_branch_size as int,
        ),
{
    let ghost before = mask@;
    let held: usize = mask.len();
    if offsets.has_immediate {
        let size = offsets.immediate_size;
        if size > unmasked_branch_size {
            let (lo0, hi) = span_end(from, offsets.immediate_offset, size);
            let lo: usize = if unmasked_branch_size > usize::MAX - lo0 {
                usize::MAX
            } else {
                lo0 + unmasked_branch_size
            };
            wipe(mask, lo, hi);
            proof {
                let tlo = from + offsets.immediate_offset + unmasked_branch_size;
                let thi = from + offsets.immediate_offset + offsets.immediate_size;
                assert(before.len() == held);
                assert forall|i: int| 0 <= i < before.len() implies #[trigger] wiped(
                    before,
                    lo as int,
                    hi as int,
                )[i] == wiped(before, tlo, thi)[i] by {}
                assert(wiped(before, lo as int, hi as int) =~= wiped(before, tlo, thi));
                assert(mask@ =~= branch_masked(
                    *offsets,
                    before,
                    from as int,
                    unmasked_branch_size as int,
                ));
            }
        }
    }
}

/// Leaves open in `mask`, in which the instruction's bytes start at
/// `from`, what changes from build to build.
pub fn mask_instr(
    base: BaseRegister,
    kind: OperandKind,
    offsets: &ConstantSpans,
    mask: &mut Vec<u8>,
    from: usize,
)
    ensures
        final(mask)@ == instr_masked(base, kind, *offsets, old(mask)@, from as int),
{
    match base {
        BaseRegister::Eip
        | BaseRegister::Rip
        | BaseRegister::Es
        | BaseRegister::Cs
        | BaseRegister::Ss
        | BaseRegister::Ds
        | BaseRegister::Fs
        | BaseRegister::Gs
        | BaseRegister::Absent => {
            mask_mem(offsets, mask, from);
        },
        BaseRegister::Other => {},
    }
    match kind {
        OperandKind::NearBranch16
        | OperandKind::NearBranch32
        | OperandKind::NearBranch64
        | OperandKind::FarBranch16
        | OperandKind::FarBranch32 => {
            mask_branch(offsets, mask, from, 1);
        },
        OperandKind::Other => {},
    }
}

/// What a [`Sigstate`] holds.
pub struct SigView {
    /// The address at which the signature starts.
    pub start_ip: u64,
    /// The bytes read there.
    pub bytes: Seq<u8>,
    /// One byte for each byte of the instructions decoded so far: `0xFF`
    /// where the byte counts, zero where it is left open.
    pub mask: Seq<u8>,
    /// The instructions decoded so far.
    pub instrs: Seq<InstrInfo>,
}

/// The sum of the lengths of the instructions.
pub open spec fn total_len(instrs: Seq<InstrInfo>) -> int
    decreases instrs.len(),
{
    if instrs.len() == 0 {
        0
    } else {
        total_len(instrs.drop_last()) + instrs.last().len
    }
}

impl SigView {
    /// The mask is as long as the instructions decoded so far and no longer
    /// than the bytes, of which there are no more than a signature covers.
    pub open spec fn wf(self) -> bool {
        &&& self.mask.len() == total_len(self.instrs)
        &&& self.mask.len() <= self.bytes.len() <= MAX_SIG_LENGTH
        &&& self.start_ip + self.bytes.len() <= u64::MAX
    }

    /// The bytes that are not decoded yet.
    pub open spec fn rest(self) -> Seq<u8> {
        self.bytes.subrange(self.mask.len() as int, self.bytes.len() as int)
    }

    /// The address of the first byte that is not decoded yet.
    pub open spec fn next_ip(self) -> u64 {
        (self.start_ip + self.mask.len()) as u64
    }

    /// The next instruction, where there is one: bytes are left, they are
    /// an instruction, and the decoder took one byte at least and no more
    /// than there are.
    pub open spec fn next_instr(self, bits: u32) -> Option<InstrInfo> {
        let i = decoded(bits, self.rest(), self.next_ip());
        if self.mask.len() >= self.bytes.len() || i.invalid || i.len == 0 || i.len
            > self.bytes.len() - self.mask.len() {
            None
        } else {
            Some(i)
        }
    }

    /// The state with the next instruction taken in: its bytes count, but
    /// for those that change from build to build.
    pub open spec fn grown(self, bits: u32) -> SigView {
        match self.next_instr(bits) {
            Some(i) => SigView {
                start_ip: self.start_ip,
                bytes: self.bytes,
                mask: instr_masked(
                    decoded_memory_base(bits, self.rest(), self.next_ip()),
                    decoded_op0_kind(bits, self.rest(), self.next_ip()),
                    decoded_constants(bits, self.rest(), self.next_ip()),
                    self.mask + Seq::new(i.len as nat, |j: int| 0xffu8),
                    self.mask.len() as int,
                ),
                instrs: self.instrs.push(i),
            },
            None => self,
        }
    }
}

/// A signature in the making: the bytes at a place in code, and the mask of
/// the instructions decoded so far.
pub struct Sigstate {
    start_ip: u64,
    buf: Vec<u8>,
    instrs: Vec<InstrInfo>,
    mask: Vec<u8>,
}

impl View for Sigstate {
    type V = SigView;

    closed spec fn view(&self) -> SigView {
        SigView { start_ip: self.start_ip, bytes: self.buf@, mask: self.mask@, instrs: self.instrs@ }
    }
}

impl Sigstate {
    /// A state for the bytes `buf` read at `start_ip`, with nothing decoded.
    pub fn new(start_ip: u64, buf: Vec<u8>) -> (r: Self)
        requires
            buf.len() <= MAX_SIG_LENGTH,
            start_ip + buf.len() <= u64::MAX,
        ensures
            r@.wf(),
            r@.start_ip == start_ip,
            r@.bytes == buf@,
            r@.mask.len() == 0,
            r@.instrs.len() == 0,
    {
        Sigstate { start_ip, buf, instrs: Vec::new(), mask: Vec::new() }
    }

    /// The address at which the signature starts.
    pub fn start_ip(&self) -> (r: u64)
        ensures
            r == self@.start_ip,
    {
        self.start_ip
    }

    /// The bytes read at the start.
    pub fn bytes(&self) -> (r: &Vec<u8>)
        ensures
            r@ == self@.bytes,
    {
        &self.buf
    }

    /// The mask of the instructions decoded so far.
    pub fn mask(&self) -> (r: &Vec<u8>)
        ensures
            r@ == self@.mask,
    {
        &self.mask
    }

    /// Takes in the next instruction, where there is one. The result says
    /// whether there was.
    pub fn add_single_instr(&mut self, bits: u32) -> (added: bool)
        requires
            old(self)@.wf(),
            valid_bitness(bits),
        ensures
            added == old(self)@.next_instr(bits) is Some,
            final(self)@ == old(self)@.grown(bits),
            final(self)@.wf(),
    {
        let pos: usize = self.mask.len();
        let end: usize = self.buf.len();
        if pos >= end {
            return false;
        }
        let ip: u64 = self.start_ip + pos as u64;
        let instr = decode_at(bits, self.buf.as_slice(), pos, end, ip);
        if instr.invalid || instr.len == 0 || instr.len > end - pos {
            return false;
        }
        let base = memory_base_at(bits, self.buf.as_slice(), pos, end, ip);
        let kind = op0_kind_at(bits, self.buf.as_slice(), pos, end, ip);
        let offsets = constants_at(bits, self.buf.as_slice(), pos, end, ip);
        let ghost before = self@;
        let mut j: usize = 0;
        while j < instr.len
            invariant
                j <= instr.len,
                pos == before.mask.len(),
                self.start_ip == before.start_ip,
                self.buf@ == before.bytes,
                self.instrs@ == before.instrs,
                self.mask@ == before.mask + Seq::new(j as nat, |k: int| 0xffu8),
            decreases instr.len - j,
        {
            self.mask.push(0xff);
            j += 1;
            assert(self.mask@ =~= before.mask + Seq::new(j as nat, |k: int| 0xffu8));
        }
        mask_instr(base, kind, &offsets, &mut self.mask, pos);
        self.instrs.push(instr);
        proof {
            assert(self.instrs@.drop_last() =~= before.instrs);
        }
        true
    }
}

/// The digit of `n` to base 16, in upper case.
pub open spec fn hex_digit(n: int) -> char {
    if n == 0 {
        '0'
    } else if n == 1 {
        '1'
    } else if n == 2 {
        '2'
    } else if n == 3 {
        '3'
    } else if n == 4 {
        '4'
    } else if n == 5 {
        '5'
    } else if n == 6 {
        '6'
    } else if n == 7 {
        '7'
    } else if n == 8 {
        '8'
    } else if n == 9 {
        '9'
    } else if n == 10 {
        'A'
    } else if n == 11 {
        'B'
    } else if n == 12 {
        'C'
    } else if n == 13 {
        'D'
    } else if n == 14 {
        'E'
    } else {
        'F'
    }
}

/// How one byte of a signature reads: as `?` where it is left open, else
/// as its two digits to base 16.
pub open spec fn byte_text(b: u8, m: u8) -> Seq<char> {
    if m == 0 {
        seq!['?']
    } else {
        seq![hex_digit(b as int / 16), hex_digit(b as int % 16)]
    }
}

/// How the first `n` bytes of a signature read: byte by byte, with one
/// space between two bytes.
pub open spec fn sig_text(bytes: Seq<u8>, mask: Seq<u8>, n: nat) -> Seq<char>
    decreases n,
{
    if n == 0 {
        Seq::empty()
    } else if n == 1 {
        byte_text(bytes[0], mask[0])
    } else {
        sig_text(bytes, mask, (n - 1) as nat) + seq![' '] + byte_text(bytes[n - 1], mask[n - 1])
    }
}

/// The number of bytes of a signature of `bytes` under `mask`.
pub open spec fn sig_len(bytes: Seq<u8>, mask: Seq<u8>) -> nat {
    if bytes.len() < mask.len() {
        bytes.len()
    } else {
        mask.len()
    }
}

/// The digit of `n` to base 16.
fn hex_str(n: u8) -> (r: &'static str)
    requires
        n < 16,
    ensures
        r@ == seq![hex_digit(n as int)],
{
    proof {
        reveal_strlit("0");
        reveal_strlit("1");
        reveal_strlit("2");
        reveal_strlit("3");
        reveal_strlit("4");
        reveal_strlit("5");
        reveal_strlit("6");
        reveal_strlit("7");
        reveal_strlit("8");
        reveal_strlit("9");
        reveal_strlit("A");
        reveal_strlit("B");
        reveal_strlit("C");
        reveal_strlit("D");
        reveal_strlit("E");
        reveal_strlit("F");
    }
    let r = if n == 0 {
        "0"
    } else if n == 1 {
        "1"
    } else if n == 2 {
        "2"
    } else if n == 3 {
        "3"
    } else if n == 4 {
        "4"
    } else if n == 5 {
        "5"
    } else if n == 6 {
        "6"
    } else if n == 7 {
        "7"
    } else if n == 8 {
        "8"
    } else if n == 9 {
        "9"
    } else if n == 10 {
        "A"
    } else if n == 11 {
        "B"
    } else if n == 12 {
        "C"
    } else if n == 13 {
        "D"
    } else if n == 14 {
        "E"
    } else {
        "F"
    };
    assert(r@ =~= seq![hex_digit(n as int)]);
    r
}

/// The signature of `bytes` under `mask` as text: the bytes as pairs of
/// digits to base 16, in upper case, with one space between two bytes and
/// `?` for a byte that is left open.
pub fn bytes_to_string(bytes: &[u8], mask: &[u8]) -> (r: String)
    ensures
        r@ == sig_text(bytes@, mask@, sig_len(bytes@, mask@)),
{
    let n: usize = if bytes.len() < mask.len() {
        bytes.len()
    } else {
        mask.len()
    };
    let mut s = String::new();
    let mut i: usize = 0;
    while i < n
        invariant
            i <= n,
            n <= bytes.len(),
            n <= mask.len(),
            s@ == sig_text(bytes@, mask@, i as nat),
        decreases n - i,
    {
        let ghost prev = s@;
        if i > 0 {
            proof {
                reveal_strlit(" ");
            }
            s.append(" ");
            assert(s@ =~= prev + seq![' ']);
        }
        let ghost spaced = s@;
        if mask[i] == 0 {
            proof {
                reveal_strlit("?");
            }
            s.append("?");
            assert(s@ =~= spaced + byte_text(bytes[i as int], mask[i as int]));
        } else {
            let b: u8 = bytes[i];
            s.append(hex_str(b / 16));
            s.append(hex_str(b % 16));
            assert(s@ =~= spaced + byte_text(bytes[i as int], mask[i as int]));
        }
        proof {
            if i == 0 {
                assert(s@ =~= byte_text(bytes[0], mask[0]));
            }
        }
        i += 1;
    }
    s
}

/// The bytes at `a` in `m` can be read and match `bytes` wherever `mask`
/// counts.
pub open spec fn masked_holds(m: Map<int, u8>, a: int, bytes: Seq<u8>, mask: Seq<u8>) -> bool {
    forall|i: int|
        0 <= i < mask.len() ==> m.contains_key(a + i) && (m[a + i] & #[trigger] mask[i]) == (
        bytes[i] & mask[i])
}

/// The bytes at offset `o` of `buf` match `bytes` wherever `mask` counts.
pub open spec fn masked_eq(buf: Seq<u8>, o: int, bytes: Seq<u8>, mask: Seq<u8>) -> bool {
    &&& 0 <= o
    &&& o + mask.len() <= buf.len()
    &&& forall|i: int|
        0 <= i < mask.len() ==> (buf[o + i] & #[trigger] mask[i]) == (bytes[i] & mask[i])
}

/// A search of `span` finds signature `v` at `a`: the address lies in the
/// span, and the signature matches there.
pub open spec fn sig_hit_in(m: Map<int, u8>, span: MemoryRange, v: SigView, a: int) -> bool {
    span.contains(a) && masked_holds(m, a, v.bytes, v.mask)
}

/// A search of the spans before index `j`, and of span `j` below address
/// `bound`, finds signature `v` at an address that is not its own.
pub open spec fn dup_below(
    m: Map<int, u8>,
    spans: Seq<MemoryRange>,
    j: int,
    bound: int,
    v: SigView,
) -> bool {
    exists|i: int, a: u64|
        0 <= i < spans.len() && (i < j || (i == j && a < bound)) && #[trigger] sig_hit_in(
            m,
            spans[i],
            v,
            a as int,
        ) && a != v.start_ip
}

/// A search of `spans` finds signature `v` at an address that is not its
/// own.
pub open spec fn has_duplicate(m: Map<int, u8>, spans: Seq<MemoryRange>, v: SigView) -> bool {
    dup_below(m, spans, spans.len() as int, 0, v)
}

/// Whether the bytes at offset `o` of `buf` match `bytes` wherever `mask`
/// counts.
pub fn masked_at(buf: &[u8], o: usize, bytes: &[u8], mask: &[u8]) -> (r: bool)
    requires
        mask.len() <= bytes.len(),
    ensures
        r == masked_eq(buf@, o as int, bytes@, mask@),
{
    if mask.len() > buf.len() || o > buf.len() - mask.len() {
        return false;
    }
    let mut i: usize = 0;
    while i < mask.len()
        invariant
            i <= mask.len(),
            mask.len() <= bytes.len(),
            o + mask.len() <= buf.len(),
            forall|k: int| 0 <= k < i ==> (buf[o + k] & #[trigger] mask[k]) == (bytes[k] & mask[k]),
        decreases mask.len() - i,
    {
        if (buf[o + i] & mask[i]) != (bytes[i] & mask[i]) {
            return false;
        }
        i += 1;
    }
    true
}

/// Signature `v` stands at offset `o` of `head`. A signature without bytes
/// stands everywhere.
pub open spec fn stands_at(head: Seq<u8>, o: int, v: SigView) -> bool {
    v.mask.len() == 0 || masked_eq(head, o, v.bytes, v.mask)
}

/// Signature `v` stands at an offset below `limit` of `head`, which was
/// read at `start`, and the place is not its own.
pub open spec fn block_dup(head: Seq<u8>, start: u64, limit: int, v: SigView) -> bool {
    exists|o: int| 0 <= o < limit && start + o != v.start_ip && #[trigger] stands_at(head, o, v)
}

/// Whether the signature of `s` stands at an offset below `limit` of the
/// first `got` bytes of `buf`, which were read at `start`, at a place that
/// is not its own.
fn block_has_duplicate(start: u64, buf: &[u8], got: usize, limit: usize, s: &Sigstate) -> (r: bool)
    requires
        got <= buf.len(),
        start + limit <= u64::MAX,
        s@.wf(),
    ensures
        r == block_dup(buf@.take(got as int), start, limit as int, s@),
{
    let ghost head = buf@.take(got as int);
    let n: usize = s.mask.len();
    if n == 0 {
        let r = limit >= 2 || (limit == 1 && start != s.start_ip);
        proof {
            if r {
                let o: int = if start != s.start_ip {
                    0
                } else {
                    1
                };
                assert(stands_at(head, o, s@));
                assert(0 <= o < limit && start + o != s@.start_ip);
            } else {
                assert forall|o: int| 0 <= o < limit implies !(start + o != s@.start_ip
                    && #[trigger] stands_at(head, o, s@)) by {}
            }
        }
        return r;
    }
    if n > got {
        return false;
    }
    let last: usize = got - n;
    let mut o: usize = 0;
    while o < limit && o <= last
        invariant
            got <= buf.len(),
            head == buf@.take(got as int),
            n == s@.mask.len(),
            0 < n <= got,
            last == got - n,
            s@.wf(),
            start + limit <= u64::MAX,
            o <= limit,
            forall|x: int|
                0 <= x < o ==> !(#[trigger] stands_at(head, x, s@) && start + x != s@.start_ip),
        decreases limit - o,
    {
        let hit = masked_at(buf, o, s.buf.as_slice(), s.mask.as_slice());
        proof {
            assert(masked_eq(buf@, o as int, s@.bytes, s@.mask) <==> masked_eq(
                head,
                o as int,
                s@.bytes,
                s@.mask,
            ));
        }
        if hit && start + o as u64 != s.start_ip {
            assert(stands_at(head, o as int, s@));
            return true;
        }
        o += 1;
    }
    proof {
        assert forall|x: int| 0 <= x < limit implies !(#[trigger] stands_at(head, x, s@) && start
            + x != s@.start_ip) by {
            if x >= o {
                assert(!masked_eq(head, x, s@.bytes, s@.mask));
            }
        }
    }
    false
}

/// What one read of the search finds is what the search reports of its
/// block.
proof fn lemma_block_dup(
    m: Map<int, u8>,
    span: MemoryRange,
    v: SigView,
    pos: u64,
    next: u64,
    head: Seq<u8>,
)
    requires
        v.wf(),
        span.base <= pos < next <= span.base + span.size,
        forall|i: int| 0 <= i < head.len() ==> head[i] == m[pos + i],
        forall|a: int, k: int|
            pos <= a < next && 1 <= k <= MAX_SIG_LENGTH ==> (a - pos + k <= head.len()
                <==> #[trigger] readable(m, a, k)),
    ensures
        block_dup(head, pos, next - pos, v) <==> exists|a: u64|
            pos <= a < next && #[trigger] sig_hit_in(m, span, v, a as int) && a != v.start_ip,
{
    let n = v.mask.len() as int;
    assert forall|a: u64| pos <= a < next implies (stands_at(head, a - pos, v) <==> sig_hit_in(
        m,
        span,
        v,
        a as int,
    )) by {
        let o = a - pos;
        if n > 0 {
            assert(a - pos + n <= head.len() <==> readable(m, a as int, n));
            if masked_eq(head, o, v.bytes, v.mask) {
                assert forall|i: int| 0 <= i < v.mask.len() implies m.contains_key(a + i) && (m[a
                    + i] & #[trigger] v.mask[i]) == (v.bytes[i] & v.mask[i]) by {
                    assert(head[o + i] == m[pos + (o + i)]);
                    assert(a <= a + i < a + n);
                }
            }
            if sig_hit_in(m, span, v, a as int) {
                assert forall|x: int| a <= x < a + n implies m.contains_key(x) by {
                    assert((m[a + (x - a)] & v.mask[x - a]) == (v.bytes[x - a] & v.mask[x - a]));
                }
                assert forall|i: int| 0 <= i < v.mask.len() implies (head[o + i]
                    & #[trigger] v.mask[i]) == (v.bytes[i] & v.mask[i]) by {
                    assert(head[o + i] == m[pos + (o + i)]);
                }
            }
        }
    }
    if block_dup(head, pos, next - pos, v) {
        let o = choose|o: int|
            0 <= o < next - pos && pos + o != v.start_ip && #[trigger] stands_at(head, o, v);
        let a = (pos + o) as u64;
        assert(stands_at(head, a - pos, v));
        assert(sig_hit_in(m, span, v, a as int));
    }
    if exists|a: u64|
        pos <= a < next && #[trigger] sig_hit_in(m, span, v, a as int) && a != v.start_ip {
        let a = choose|a: u64|
            pos <= a < next && #[trigger] sig_hit_in(m, span, v, a as int) && a != v.start_ip;
        let o = a - pos;
        assert(stands_at(head, o, v));
    }
}

/// What the search has found after one more block.
proof fn lemma_dup_step(
    m: Map<int, u8>,
    spans: Seq<MemoryRange>,
    j: int,
    pos: int,
    next: int,
    v: SigView,
    found: bool,
)
    requires
        0 <= j < spans.len(),
        spans[j].base <= pos < next <= spans[j].base + spans[j].size,
        found <==> exists|a: u64|
            pos <= a < next && #[trigger] sig_hit_in(m, spans[j], v, a as int) && a != v.start_ip,
    ensures
        dup_below(m, spans, j, next, v) <==> dup_below(m, spans, j, pos, v) || found,
{
    if dup_below(m, spans, j, next, v) {
        let (i, a) = choose|i: int, a: u64|
            0 <= i < spans.len() && (i < j || (i == j && a < next)) && #[trigger] sig_hit_in(
                m,
                spans[i],
                v,
                a as int,
            ) && a != v.start_ip;
        if i == j && a >= pos {
            assert(sig_hit_in(m, spans[j], v, a as int));
        } else {
            assert(sig_hit_in(m, spans[i], v, a as int));
        }
    }
    if dup_below(m, spans, j, pos, v) {
        let (i, a) = choose|i: int, a: u64|
            0 <= i < spans.len() && (i < j || (i == j && a < pos)) && #[trigger] sig_hit_in(
                m,
                spans[i],
                v,
                a as int,
            ) && a != v.start_ip;
        assert(sig_hit_in(m, spans[i], v, a as int));
    }
    if found {
        let a = choose|a: u64|
            pos <= a < next && #[trigger] sig_hit_in(m, spans[j], v, a as int) && a != v.start_ip;
        assert(sig_hit_in(m, spans[j], v, a as int));
    }
}

/// What the search has found when it goes from one span to the next.
proof fn lemma_dup_next_span(m: Map<int, u8>, spans: Seq<MemoryRange>, j: int, v: SigView)
    requires
        0 <= j < spans.len(),
    ensures
        dup_below(m, spans, j, spans[j].base + spans[j].size, v) <==> dup_below(
            m,
            spans,
            j + 1,
            if j + 1 < spans.len() { spans[j + 1].base as int } else { 0 },
            v,
        ),
        j == 0 ==> !dup_below(m, spans, 0, spans[0].base as int, v),
{
    let bound = if j + 1 < spans.len() {
        spans[j + 1].base as int
    } else {
        0
    };
    if dup_below(m, spans, j, spans[j].base + spans[j].size, v) {
        let (i, a) = choose|i: int, a: u64|
            0 <= i < spans.len() && (i < j || (i == j && a < spans[j].base + spans[j].size))
                && #[trigger] sig_hit_in(m, spans[i], v, a as int) && a != v.start_ip;
        assert(sig_hit_in(m, spans[i], v, a as int));
    }
    if dup_below(m, spans, j + 1, bound, v) {
        let (i, a) = choose|i: int, a: u64|
            0 <= i < spans.len() && (i < j + 1 || (i == j + 1 && a < bound)) && #[trigger] sig_hit_in(
                m,
                spans[i],
                v,
                a as int,
            ) && a != v.start_ip;
        assert(sig_hit_in(m, spans[i], v, a as int));
    }
    if j == 0 && dup_below(m, spans, 0, spans[0].base as int, v) {
        let (i, a) = choose|i: int, a: u64|
            0 <= i < spans.len() && (i < 0 || (i == 0 && a < spans[0].base)) && #[trigger] sig_hit_in(
                m,
                spans[i],
                v,
                a as int,
            ) && a != v.start_ip;
        assert(spans[0].contains(a as int));
    }
}

/// What the states hold.
pub open spec fn views(states: Seq<Sigstate>) -> Seq<SigView> {
    Seq::new(states.len(), |i: int| states[i]@)
}

/// What the strings hold.
pub open spec fn texts(out: Seq<String>) -> Seq<Seq<char>> {
    Seq::new(out.len(), |i: int| out[i]@)
}

/// How signature `v` reads.
pub open spec fn text_of(v: SigView) -> Seq<char> {
    sig_text(v.bytes, v.mask, sig_len(v.bytes, v.mask))
}

/// The texts of the signatures from index `k` on that a search of `spans`
/// finds nowhere but at their own address, in their order.
pub open spec fn unique_texts(
    m: Map<int, u8>,
    spans: Seq<MemoryRange>,
    vs: Seq<SigView>,
    k: nat,
) -> Seq<Seq<char>>
    decreases vs.len() - k,
{
    if k < vs.len() {
        (if has_duplicate(m, spans, vs[k as int]) {
            Seq::empty()
        } else {
            seq![text_of(vs[k as int])]
        }) + unique_texts(m, spans, vs, k + 1)
    } else {
        Seq::empty()
    }
}

/// A faulty address lies where a search of `spans` for duplicates reads:
/// in one of the spans, or among the bytes that a signature at its end
/// reaches.
pub open spec fn search_faulty(mem: &MemoryImage, spans: Seq<MemoryRange>) -> bool {
    exists|j: int|
        0 <= j < spans.len() && extent_faulty(mem, #[trigger] spans[j], MAX_SIG_LENGTH as int)
}

/// Searches one span for duplicates of the signatures of `states`, and
/// notes in `dups` which of them it found.
fn search_span(
    states: &Vec<Sigstate>,
    mem: &MemoryImage,
    spans: &Vec<MemoryRange>,
    j: usize,
    buf: &mut Vec<u8>,
    dups: &mut Vec<bool>,
) -> (r: Result<(), Error>)
    requires
        mem.wf(),
        spans_fit(spans@),
        j < spans.len(),
        old(buf).len() == STRIDE + MAX_SIG_LENGTH - 1,
        old(dups).len() == states.len(),
        forall|q: int| 0 <= q < states.len() ==> (#[trigger] states[q])@.wf(),
        forall|q: int|
            0 <= q < states.len() ==> #[trigger] old(dups)[q] == dup_below(
                mem@,
                spans@,
                j as int,
                spans[j as int].base as int,
                states[q]@,
            ),
    ensures
        final(buf).len() == old(buf).len(),
        final(dups).len() == old(dups).len(),
        r is Err <==> extent_faulty(mem, spans[j as int], MAX_SIG_LENGTH as int),
        r matches Err(e) ==> e == Error::MemoryFatal && final(dups)@ == old(dups)@,
        r is Ok ==> forall|q: int|
            0 <= q < states.len() ==> #[trigger] final(dups)[q] == dup_below(
                mem@,
                spans@,
                j as int,
                spans[j as int].base + spans[j as int].size,
                states[q]@,
            ),
{
    let span = spans[j];
    if mem.fault_in_extent(span, MAX_SIG_LENGTH) {
        return Err(Error::MemoryFatal);
    }
    let span_end: u64 = span.base + span.size;
    let mut pos: u64 = span.base;
    while pos < span_end
        invariant
            mem.wf(),
            j < spans.len(),
            span == spans[j as int],
            span_end == span.base + span.size,
            buf.len() == STRIDE + MAX_SIG_LENGTH - 1,
            buf.len() == old(buf).len(),
            dups.len() == states.len(),
            dups.len() == old(dups).len(),
            !mem.faulty_in(span.base as int, span.size + MAX_SIG_LENGTH - 1),
            span.base <= pos <= span_end,
            forall|q: int| 0 <= q < states.len() ==> (#[trigger] states[q])@.wf(),
            forall|q: int|
                0 <= q < states.len() ==> #[trigger] dups[q] == dup_below(
                    mem@,
                    spans@,
                    j as int,
                    pos as int,
                    states[q]@,
                ),
        decreases span_end - pos,
    {
        let end: u64 = block_end(pos, span_end, STRIDE);
        proof {
            if mem.faulty_in(pos as int, end - pos + MAX_SIG_LENGTH - 1) {
                let x = choose|x: int|
                    pos <= x < pos + (end - pos + MAX_SIG_LENGTH - 1) && mem.faulty(x);
                assert(span.base <= x < span.base + (span.size + MAX_SIG_LENGTH - 1));
            }
        }
        let (got, next) = read_block(mem, pos, end, MAX_SIG_LENGTH, buf);
        let limit: usize = (next - pos) as usize;
        let mut q: usize = 0;
        while q < states.len()
            invariant
                j < spans.len(),
                span == spans[j as int],
                span.base <= pos < next <= span.base + span.size,
                limit == next - pos,
                got <= buf.len(),
                forall|i: int| 0 <= i < got ==> buf[i] == mem@[pos + i],
                forall|a: int, k: int|
                    pos <= a < next && 1 <= k <= MAX_SIG_LENGTH ==> (a - pos + k <= got
                        <==> #[trigger] readable(mem@, a, k)),
                dups.len() == states.len(),
                q <= states.len(),
                forall|p: int| 0 <= p < states.len() ==> (#[trigger] states[p])@.wf(),
                forall|p: int|
                    0 <= p < q ==> #[trigger] dups[p] == dup_below(
                        mem@,
                        spans@,
                        j as int,
                        next as int,
                        states[p]@,
                    ),
                forall|p: int|
                    q <= p < states.len() ==> #[trigger] dups[p] == dup_below(
                        mem@,
                        spans@,
                        j as int,
                        pos as int,
                        states[p]@,
                    ),
            decreases states.len() - q,
        {
            let found = block_has_duplicate(pos, buf.as_slice(), got, limit, &states[q]);
            proof {
                let v = states[q as int]@;
                lemma_block_dup(mem@, span, v, pos, next, buf@.take(got as int));
                lemma_dup_step(mem@, spans@, j as int, pos as int, next as int, v, found);
            }
            if found {
                dups.set(q, true);
            }
            q += 1;
        }
        pos = next;
    }
    Ok(())
}

/// Searches `ranges` for the signatures of `states` and appends to `out`
/// the text of every signature that stands nowhere but at its own address.
/// The result says whether there is such a signature.
pub fn has_unique_matches(
    states: &Vec<Sigstate>,
    mem: &MemoryImage,
    ranges: &Vec<MemoryRange>,
    out: &mut Vec<String>,
) -> (r: Result<bool, Error>)
    requires
        mem.wf(),
        spans_fit(ranges@),
        forall|q: int| 0 <= q < states.len() ==> (#[trigger] states[q])@.wf(),
    ensures
        r is Err <==> search_faulty(mem, ranges@),
        r matches Err(e) ==> e == Error::MemoryFatal && final(out)@ == old(out)@,
        r matches Ok(b) ==> texts(final(out)@) == texts(old(out)@) + unique_texts(
            mem@,
            ranges@,
            views(states@),
            0,
        ) && b == (unique_texts(mem@, ranges@, views(states@), 0).len() > 0),
{
    let mut dups: Vec<bool> = vec![false; states.len()];
    let mut buf: Vec<u8> = vec![0u8; STRIDE + MAX_SIG_LENGTH - 1];
    let mut j: usize = 0;
    proof {
        if ranges.len() > 0 {
            assert forall|q: int| 0 <= q < states.len() implies #[trigger] dups[q] == dup_below(
                mem@,
                ranges@,
                0,
                ranges[0].base as int,
                states[q]@,
            ) by {
                lemma_dup_next_span(mem@, ranges@, 0, states[q]@);
            }
        }
    }
    while j < ranges.len()
        invariant
            mem.wf(),
            spans_fit(ranges@),
            buf.len() == STRIDE + MAX_SIG_LENGTH - 1,
            dups.len() == states.len(),
            j <= ranges.len(),
            forall|q: int| 0 <= q < states.len() ==> (#[trigger] states[q])@.wf(),
            ranges.len() == 0 ==> forall|q: int| 0 <= q < states.len() ==> !#[trigger] dups[q],
            ranges.len() > 0 ==> forall|q: int|
                0 <= q < states.len() ==> #[trigger] dups[q] == dup_below(
                    mem@,
                    ranges@,
                    j as int,
                    if j < ranges.len() { ranges[j as int].base as int } else { 0 },
                    states[q]@,
                ),
            forall|i: int|
                0 <= i < j ==> !extent_faulty(mem, #[trigger] ranges[i], MAX_SIG_LENGTH as int),
        decreases ranges.len() - j,
    {
        match search_span(states, mem, ranges, j, &mut buf, &mut dups) {
            Err(e) => {
                assert(extent_faulty(mem, ranges[j as int], MAX_SIG_LENGTH as int));
                return Err(e);
            },
            Ok(()) => {
                proof {
                    assert forall|q: int| 0 <= q < states.len() implies #[trigger] dups[q]
                        == dup_below(
                        mem@,
                        ranges@,
                        j + 1,
                        if j + 1 < ranges.len() { ranges[j + 1].base as int } else { 0 },
                        states[q]@,
                    ) by {
                        lemma_dup_next_span(mem@, ranges@, j as int, states[q]@);
                    }
                }
            },
        }
        j += 1;
    }
    proof {
        assert forall|q: int| 0 <= q < states.len() implies #[trigger] dups[q] == has_duplicate(
            mem@,
            ranges@,
            states[q]@,
        ) by {
            if ranges.len() == 0 {
                if has_duplicate(mem@, ranges@, states[q]@) {
                    let (i, a) = choose|i: int, a: u64|
                        0 <= i < ranges.len() && (i < ranges.len() || (i == ranges.len() && a < 0))
                            && #[trigger] sig_hit_in(mem@, ranges@[i], states[q]@, a as int) && a
                            != states[q]@.start_ip;
                }
            }
        }
    }
    let ghost before = texts(out@);
    let ghost vs = views(states@);
    let ghost goal = unique_texts(mem@, ranges@, vs, 0);
    let mut has_unique = false;
    let mut q: usize = 0;
    assert(before + goal =~= texts(out@) + goal);
    let ghost mut added: Seq<Seq<char>> = Seq::empty();
    while q < states.len()
        invariant
            dups.len() == states.len(),
            q <= states.len(),
            vs == views(states@),
            forall|p: int|
                0 <= p < states.len() ==> #[trigger] dups[p] == has_duplicate(
                    mem@,
                    ranges@,
                    states[p]@,
                ),
            forall|p: int| 0 <= p < states.len() ==> (#[trigger] states[p])@.wf(),
            texts(out@) == before + added,
            goal == added + unique_texts(mem@, ranges@, vs, q as nat),
            has_unique == (added.len() > 0),
        decreases states.len() - q,
    {
        let ghost rest = unique_texts(mem@, ranges@, vs, (q + 1) as nat);
        let ghost prev = out@;
        if !dups[q] {
            let text = bytes_to_string(states[q].buf.as_slice(), states[q].mask.as_slice());
            out.push(text);
            has_unique = true;
            proof {
                let t = text_of(vs[q as int]);
                assert(text@ == t);
                assert(texts(out@) =~= texts(prev).push(t));
                assert(added + (seq![t] + rest) =~= added.push(t) + rest);
                assert(before + added.push(t) =~= (before + added).push(t));
                added = added.push(t);
            }
        } else {
            proof {
                assert(added + (Seq::<Seq<char>>::empty() + rest) =~= added + rest);
            }
        }
        q += 1;
    }
    proof {
        assert(added + Seq::<Seq<char>>::empty() =~= added);
    }
    Ok(has_unique)
}

/// The states with the next instruction of each taken in.
pub open spec fn grow_all(bits: u32, vs: Seq<SigView>) -> Seq<SigView> {
    Seq::new(vs.len(), |i: int| vs[i].grown(bits))
}

/// Some state has a next instruction.
pub open spec fn any_next(bits: u32, vs: Seq<SigView>) -> bool {
    exists|i: int| 0 <= i < vs.len() && (#[trigger] vs[i]).next_instr(bits) is Some
}

/// The number of bytes of a state that are not decoded yet.
pub open spec fn room(v: SigView) -> nat {
    if v.mask.len() <= v.bytes.len() {
        (v.bytes.len() - v.mask.len()) as nat
    } else {
        0
    }
}

/// The number of bytes of the states that are not decoded yet.
pub open spec fn left(vs: Seq<SigView>) -> nat
    decreases vs.len(),
{
    if vs.len() == 0 {
        0
    } else {
        left(vs.drop_last()) + room(vs.last())
    }
}

/// Growing leaves fewer bytes to decode in every state that grows, and no
/// more in any.
pub proof fn lemma_grow_left(bits: u32, vs: Seq<SigView>)
    ensures
        left(grow_all(bits, vs)) <= left(vs),
        any_next(bits, vs) ==> left(grow_all(bits, vs)) < left(vs),
    decreases vs.len(),
{
    if vs.len() > 0 {
        let front = vs.drop_last();
        lemma_grow_left(bits, front);
        assert(grow_all(bits, vs).drop_last() =~= grow_all(bits, front));
        assert(grow_all(bits, vs).last() == vs.last().grown(bits));
        if any_next(bits, vs) {
            let i = choose|i: int| 0 <= i < vs.len() && (#[trigger] vs[i]).next_instr(bits) is Some;
            if i < vs.len() - 1 {
                assert(front[i].next_instr(bits) is Some);
            }
        }
    }
}

/// The signatures that growing the states round by round gives, or nothing
/// where a faulty address lies where the search reads.
///
/// In each round every state takes in its next instruction. Where no
/// state has one, there are no signatures. Else the code is searched for
/// every state's signature, and the texts of those found nowhere but at
/// their own address are the result; where there are none, the next round
/// follows.
pub open spec fn sig_rounds(
    mem: &MemoryImage,
    bits: u32,
    spans: Seq<MemoryRange>,
    vs: Seq<SigView>,
) -> Option<Seq<Seq<char>>>
    decreases left(vs),
{
    if !any_next(bits, vs) {
        Some(Seq::empty())
    } else if search_faulty(mem, spans) {
        None
    } else {
        let found = unique_texts(mem@, spans, grow_all(bits, vs), 0);
        if found.len() > 0 {
            Some(found)
        } else {
            proof {
                lemma_grow_left(bits, vs);
            }
            sig_rounds(mem, bits, spans, grow_all(bits, vs))
        }
    }
}

/// Lets every state take in its next instruction. The result says whether
/// any state had one.
pub fn grow_states(states: &mut Vec<Sigstate>, bits: u32) -> (added: bool)
    requires
        valid_bitness(bits),
        forall|q: int| 0 <= q < old(states).len() ==> (#[trigger] old(states)[q])@.wf(),
    ensures
        views(final(states)@) == grow_all(bits, views(old(states)@)),
        added == any_next(bits, views(old(states)@)),
        forall|q: int| 0 <= q < final(states).len() ==> (#[trigger] final(states)[q])@.wf(),
{
    let ghost before = views(states@);
    let mut added = false;
    let mut i: usize = 0;
    while i < states.len()
        invariant
            valid_bitness(bits),
            i <= states.len(),
            states.len() == before.len(),
            forall|q: int| 0 <= q < states.len() ==> (#[trigger] states[q])@.wf(),
            forall|q: int| 0 <= q < i ==> (#[trigger] states[q])@ == before[q].grown(bits),
            forall|q: int| i <= q < states.len() ==> (#[trigger] states[q])@ == before[q],
            added == exists|q: int| 0 <= q < i && (#[trigger] before[q]).next_instr(bits) is Some,
        decreases states.len() - i,
    {
        let ghost prev = states@;
        let one = states[i].add_single_instr(bits);
        proof {
            assert(forall|q: int| 0 <= q < states.len() && q != i ==> states[q] == prev[q]);
            if one {
                assert(before[i as int].next_instr(bits) is Some);
            }
            if exists|q: int| 0 <= q < i + 1 && (#[trigger] before[q]).next_instr(bits) is Some {
                let q = choose|q: int|
                    0 <= q < i + 1 && (#[trigger] before[q]).next_instr(bits) is Some;
                if q < i {
                    assert(before[q].next_instr(bits) is Some);
                }
            }
        }
        if one {
            added = true;
        }
        i += 1;
    }
    proof {
        assert(views(states@) =~= grow_all(bits, before));
        if any_next(bits, before) {
            let q = choose|q: int|
                0 <= q < before.len() && (#[trigger] before[q]).next_instr(bits) is Some;
            assert(before[q].next_instr(bits) is Some);
        }
    }
    added
}

/// Grows the states round by round until the signature of one of them
/// stands nowhere else in `ranges`, and gives the texts of those that do
/// so then.
pub fn grow_until_unique(
    states: &mut Vec<Sigstate>,
    mem: &MemoryImage,
    bits: u32,
    ranges: &Vec<MemoryRange>,
) -> (r: Result<Vec<String>, Error>)
    requires
        mem.wf(),
        valid_bitness(bits),
        spans_fit(ranges@),
        forall|q: int| 0 <= q < old(states).len() ==> (#[trigger] old(states)[q])@.wf(),
    ensures
        r is Ok <==> sig_rounds(mem, bits, ranges@, views(old(states)@)) is Some,
        r matches Ok(v) ==> texts(v@) == sig_rounds(mem, bits, ranges@, views(old(states)@))->0,
        r matches Err(e) ==> e == Error::MemoryFatal,
        forall|q: int| 0 <= q < final(states).len() ==> (#[trigger] final(states)[q])@.wf(),
{
    let mut out: Vec<String> = Vec::new();
    let ghost goal = sig_rounds(mem, bits, ranges@, views(states@));
    loop
        invariant_except_break
            out.len() == 0,
            goal == sig_rounds(mem, bits, ranges@, views(states@)),
        invariant
            goal == sig_rounds(mem, bits, ranges@, views(old(states)@)),
            mem.wf(),
            valid_bitness(bits),
            spans_fit(ranges@),
            forall|q: int| 0 <= q < states.len() ==> (#[trigger] states[q])@.wf(),
        ensures
            goal == Some(texts(out@)),
        decreases left(views(states@)),
    {
        let ghost before = views(states@);
        let added = grow_states(states, bits);
        proof {
            lemma_grow_left(bits, before);
        }
        if !added {
            proof {
                assert(texts(out@) =~= Seq::<Seq<char>>::empty());
            }
            break ;
        }
        let ghost found = unique_texts(mem@, ranges@, views(states@), 0);
        match has_unique_matches(states, mem, ranges, &mut out) {
            Err(e) => {
                proof {
                    assert(any_next(bits, before));
                    assert(search_faulty(mem, ranges@));
                    assert(sig_rounds(mem, bits, ranges@, before) is None);
                }
                return Err(e);
            },
            Ok(unique) => {
                proof {
                    assert(texts(out@) =~= found);
                }
                if unique {
                    break ;
                }
            },
        }
    }
    Ok(out)
}

/// The index of the first module from index `i` on that holds address `t`.
pub open spec fn module_of(modules: Seq<ModuleInfo>, t: u64, i: nat) -> Option<int>
    decreases modules.len() - i,
{
    if i >= modules.len() {
        None
    } else if modules[i as int].contains(t) {
        Some(i as int)
    } else {
        module_of(modules, t, i + 1)
    }
}

/// The first module that holds address `t`.
pub fn find_module(modules: &Vec<ModuleInfo>, t: u64) -> (r: Option<usize>)
    ensures
        r is Some <==> module_of(modules@, t, 0) is Some,
        r matches Some(i) ==> i < modules.len() && module_of(modules@, t, 0) == Some(i as int),
{
    let mut i: usize = 0;
    while i < modules.len()
        invariant
            i <= modules.len(),
            module_of(modules@, t, 0) == module_of(modules@, t, i as nat),
        decreases modules.len() - i,
    {
        if modules[i].has(t) {
            return Some(i);
        }
        i += 1;
    }
    None
}

/// A state for each of `addrs` from index `k` on, with the bytes that can
/// be read there, no more than a signature covers, and nothing decoded.
pub open spec fn fresh_states(m: Map<int, u8>, addrs: Seq<u64>) -> Seq<SigView> {
    Seq::new(
        addrs.len(),
        |k: int|
            SigView {
                start_ip: addrs[k],
                bytes: bytes_at(
                    m,
                    addrs[k] as int,
                    readable_prefix(m, addrs[k] as int, MAX_SIG_LENGTH as nat) as int,
                ),
                mask: Seq::empty(),
                instrs: Seq::empty(),
            },
    )
}

/// The read at one of `addrs` touches a faulty address.
pub open spec fn candidates_faulty(mem: &MemoryImage, addrs: Seq<u64>) -> bool {
    exists|k: int|
        0 <= k < addrs.len() && #[trigger] mem.faulty_in(addrs[k] as int, MAX_SIG_LENGTH as int)
}

/// Reads at each of `addrs` the bytes for a signature.
pub fn read_candidates(mem: &MemoryImage, addrs: &Vec<u64>) -> (r: Result<Vec<Sigstate>, Error>)
    requires
        mem.wf(),
    ensures
        r is Err <==> candidates_faulty(mem, addrs@),
        r matches Err(e) ==> e == Error::MemoryFatal,
        r matches Ok(states) ==> views(states@) == fresh_states(mem@, addrs@) && forall|q: int|
            0 <= q < states.len() ==> (#[trigger] states[q])@.wf(),
{
    let mut states: Vec<Sigstate> = Vec::new();
    let mut k: usize = 0;
    while k < addrs.len()
        invariant
            mem.wf(),
            k <= addrs.len(),
            states.len() == k,
            forall|q: int| 0 <= q < k ==> (#[trigger] states[q])@.wf(),
            forall|q: int| 0 <= q < k ==> (#[trigger] states[q])@ == fresh_states(mem@, addrs@)[q],
            forall|q: int|
                0 <= q < k ==> !#[trigger] mem.faulty_in(addrs[q] as int, MAX_SIG_LENGTH as int),
        decreases addrs.len() - k,
    {
        let a: u64 = addrs[k];
        let mut buf: Vec<u8> = vec![0u8; MAX_SIG_LENGTH];
        match mem.read_raw_into(a, &mut buf) {
            Err(_) => {
                return Err(Error::MemoryFatal);
            },
            Ok(got) => {
                proof {
                    lemma_readable_prefix_bounds(mem@, a as int, MAX_SIG_LENGTH as nat);
                    mem.lemma_view_bounds();
                    if got > 0 {
                        assert(mem@.contains_key(a + got - 1));
                    }
                }
                buf.truncate(got);
                proof {
                    assert(buf@ =~= bytes_at(mem@, a as int, got as int));
                }
                let s = Sigstate::new(a, buf);
                proof {
                    assert(s@.mask =~= Seq::<u8>::empty());
                    assert(s@.instrs =~= Seq::<InstrInfo>::empty());
                    assert(total_len(s@.instrs) == 0);
                }
                states.push(s);
            },
        }
        k += 1;
    }
    proof {
        assert(views(states@) =~= fresh_states(mem@, addrs@));
        if candidates_faulty(mem, addrs@) {
            let q = choose|q: int|
                0 <= q < addrs.len() && #[trigger] mem.faulty_in(
                    addrs[q] as int,
                    MAX_SIG_LENGTH as int,
                );
            assert(false);
        }
    }
    Ok(states)
}

/// The signatures for `target`, or why there are none.
///
/// The target must be one that code refers to, and a module must hold it.
/// The places at which a signature may start are the instructions that
/// refer to the target; the code that must not hold a signature twice is
/// that of the module.
pub open spec fn sigs_of(process: &ProcessImage, links: Links, target: u64) -> Result<
    Seq<Seq<char>>,
    Error,
> {
    if !links.inverse.contains_key(target) {
        Err(Error::InvalidArgument)
    } else {
        match module_of(process.spec_modules(), target, 0) {
            None => Err(Error::ModuleNotFound),
            Some(i) => {
                let mem = process.spec_memory();
                if candidates_faulty(&mem, links.inverse[target]) {
                    Err(Error::MemoryFatal)
                } else {
                    match sig_rounds(
                        &mem,
                        process.spec_bits(),
                        text_spans(process.spec_modules()[i].sections@, 0),
                        fresh_states(mem@, links.inverse[target]),
                    ) {
                        Some(found) => Ok(found),
                        None => Err(Error::MemoryFatal),
                    }
                }
            },
        }
    }
}

/// The maker of signatures.
pub struct Sigmaker {}

impl Default for Sigmaker {
    fn default() -> (r: Self) {
        Sigmaker {  }
    }
}

impl Sigmaker {
    /// Finds signatures of code that refers to `target_global`.
    ///
    /// A signature is made for every instruction that refers to the
    /// target, from up to [`MAX_SIG_LENGTH`] bytes read at the instruction.
    /// All signatures grow by one instruction at a time, until one or more
    /// of them stand nowhere else in the code of the module that holds the
    /// target: the texts of those are the result. Where no signature can
    /// grow any more, the result is empty.
    pub fn find_sigs(process: &ProcessImage, disasm: &Disasm, target_global: u64) -> (r: Result<
        Vec<String>,
        Error,
    >)
        requires
            process.wf(),
        ensures
            match (r, sigs_of(process, disasm@, target_global)) {
                (Ok(v), Ok(found)) => texts(v@) == found,
                (Err(e), Err(f)) => e == f,
                _ => false,
            },
    {
        let addrs = match disasm.references_to(target_global) {
            Some(l) => l,
            None => {
                return Err(Error::InvalidArgument);
            },
        };
        let module = match find_module(process.modules(), target_global) {
            Some(i) => &process.modules()[i],
            None => {
                return Err(Error::ModuleNotFound);
            },
        };
        let mut ranges: Vec<MemoryRange> = Vec::new();
        proof {
            let i = module_of(process.spec_modules(), target_global, 0)->0;
            assert(process.spec_modules()[i].fits());
        }
        text_ranges(module, &mut ranges);
        assert(ranges@ =~= text_spans(module.sections@, 0));
        let mut states = match read_candidates(process.memory(), addrs) {
            Ok(s) => s,
            Err(e) => {
                return Err(e);
            },
        };
        grow_until_unique(&mut states, process.memory(), process.bits(), &ranges)
    }
}

/// Position `i` of a mask, in which the instruction's bytes start at
/// `from`, is left open for the instruction: it is a byte of the
/// displacement, where the base of the memory operand is the instruction
/// pointer, a segment register or none, or a byte behind the first of the
/// immediate of a branch.
pub open spec fn left_open(
    base: BaseRegister,
    kind: OperandKind,
    c: ConstantSpans,
    from: int,
    i: int,
) -> bool {
    ||| open_base(base) && c.has_displacement && from + c.displacement_offset <= i < from
        + c.displacement_offset + c.displacement_size
    ||| branch_kind(kind) && c.has_immediate && c.immediate_size > 1 && from + c.immediate_offset
        + 1 <= i < from + c.immediate_offset + c.immediate_size
}

/// Masking an instruction keeps the length of the mask, sets to zero the
/// positions that are left open, and changes no other.
pub proof fn lemma_mask_shape(
    base: BaseRegister,
    kind: OperandKind,
    c: ConstantSpans,
    mask: Seq<u8>,
    from: int,
)
    ensures
        instr_masked(base, kind, c, mask, from).len() == mask.len(),
        forall|i: int|
            0 <= i < mask.len() ==> #[trigger] instr_masked(base, kind, c, mask, from)[i] == (
            if left_open(base, kind, c, from, i) {
                0u8
            } else {
                mask[i]
            }),
{
}

/// The mask of a state that has grown: as long as the instructions taken
/// in, as it was for the instructions taken in before, and, for the new
/// instruction, zero at the positions that are left open and `0xFF` at
/// every other.
pub proof fn lemma_grown_shape(bits: u32, v: SigView)
    requires
        v.wf(),
    ensures
        v.grown(bits).wf(),
        v.grown(bits).start_ip == v.start_ip,
        v.grown(bits).bytes == v.bytes,
        v.next_instr(bits) is None ==> v.grown(bits) == v,
        v.next_instr(bits) matches Some(i) ==> {
            &&& v.grown(bits).mask.len() == v.mask.len() + i.len
            &&& forall|k: int| 0 <= k < v.mask.len() ==> v.grown(bits).mask[k] == v.mask[k]
            &&& forall|k: int|
                v.mask.len() <= k < v.mask.len() + i.len ==> #[trigger] v.grown(bits).mask[k] == (
                if left_open(
                    decoded_memory_base(bits, v.rest(), v.next_ip()),
                    decoded_op0_kind(bits, v.rest(), v.next_ip()),
                    decoded_constants(bits, v.rest(), v.next_ip()),
                    v.mask.len() as int,
                    k,
                ) {
                    0u8
                } else {
                    0xffu8
                })
        },
{
    match v.next_instr(bits) {
        Some(i) => {
            let base = decoded_memory_base(bits, v.rest(), v.next_ip());
            let kind = decoded_op0_kind(bits, v.rest(), v.next_ip());
            let c = decoded_constants(bits, v.rest(), v.next_ip());
            let wide = v.mask + Seq::new(i.len as nat, |j: int| 0xffu8);
            lemma_mask_shape(base, kind, c, wide, v.mask.len() as int);
            assert(v.instrs.push(i).drop_last() =~= v.instrs);
        },
        None => {},
    }
}

/// The bytes of the state are the bytes of `m` at its address.
pub open spec fn from_memory(m: Map<int, u8>, v: SigView) -> bool {
    &&& v.wf()
    &&& readable(m, v.start_ip as int, v.bytes.len() as int)
    &&& v.bytes == bytes_at(m, v.start_ip as int, v.bytes.len() as int)
}

/// Text `t` is that of a signature which is made of the bytes at its own
/// address, matches there, and matches nowhere else in `spans`.
pub open spec fn emitted_ok(m: Map<int, u8>, spans: Seq<MemoryRange>, t: Seq<char>) -> bool {
    exists|v: SigView| #[trigger]
        text_of(v) == t && from_memory(m, v) && masked_holds(
            m,
            v.start_ip as int,
            v.bytes,
            v.mask,
        ) && !has_duplicate(m, spans, v)
}

/// Every text of `ts` is that of a signature which matches at its own
/// address and nowhere else.
pub open spec fn all_emitted_ok(m: Map<int, u8>, spans: Seq<MemoryRange>, ts: Seq<Seq<char>>) -> bool {
    forall|q: int| 0 <= q < ts.len() ==> emitted_ok(m, spans, #[trigger] ts[q])
}

/// A signature made of the bytes at its own address matches there.
pub proof fn lemma_matches_itself(m: Map<int, u8>, v: SigView)
    requires
        from_memory(m, v),
    ensures
        masked_holds(m, v.start_ip as int, v.bytes, v.mask),
{
    assert forall|i: int| 0 <= i < v.mask.len() implies m.contains_key(v.start_ip + i) && (m[v.start_ip
        + i] & #[trigger] v.mask[i]) == (v.bytes[i] & v.mask[i]) by {
        assert(v.bytes[i] == m[v.start_ip + i]);
    }
}

proof fn lemma_unique_texts_ok(m: Map<int, u8>, spans: Seq<MemoryRange>, vs: Seq<SigView>, k: nat)
    requires
        forall|i: int| 0 <= i < vs.len() ==> from_memory(m, #[trigger] vs[i]),
    ensures
        all_emitted_ok(m, spans, unique_texts(m, spans, vs, k)),
    decreases vs.len() - k,
{
    if k < vs.len() {
        lemma_unique_texts_ok(m, spans, vs, k + 1);
        let v = vs[k as int];
        let here = if has_duplicate(m, spans, v) {
            Seq::<Seq<char>>::empty()
        } else {
            seq![text_of(v)]
        };
        let rest = unique_texts(m, spans, vs, k + 1);
        assert forall|q: int| 0 <= q < (here + rest).len() implies emitted_ok(
            m,
            spans,
            #[trigger] (here + rest)[q],
        ) by {
            if q < here.len() {
                lemma_matches_itself(m, v);
                assert(text_of(v) == (here + rest)[q]);
            } else {
                assert((here + rest)[q] == rest[q - here.len()]);
            }
        }
    }
}

/// Every signature that the rounds give matches at its own address and at
/// no other address of the code that was searched.
pub proof fn lemma_rounds_unique(
    mem: &MemoryImage,
    bits: u32,
    spans: Seq<MemoryRange>,
    vs: Seq<SigView>,
)
    requires
        forall|i: int| 0 <= i < vs.len() ==> from_memory(mem@, #[trigger] vs[i]),
    ensures
        sig_rounds(mem, bits, spans, vs) matches Some(ts) ==> all_emitted_ok(mem@, spans, ts),
    decreases left(vs),
{
    if any_next(bits, vs) && !search_faulty(mem, spans) {
        let next = grow_all(bits, vs);
        assert forall|i: int| 0 <= i < next.len() implies from_memory(mem@, #[trigger] next[i]) by {
            lemma_grown_shape(bits, vs[i]);
        }
        lemma_unique_texts_ok(mem@, spans, next, 0);
        if unique_texts(mem@, spans, next, 0).len() == 0 {
            lemma_grow_left(bits, vs);
            lemma_rounds_unique(mem, bits, spans, next);
        }
    }
}

/// Every signature found for a target matches at its own address and at no
/// other address of the code of the module that holds the target.
pub proof fn lemma_sigs_unique(process: &ProcessImage, links: Links, target: u64)
    requires
        process.wf(),
    ensures
        sigs_of(process, links, target) matches Ok(ts) ==> all_emitted_ok(
            process.spec_memory()@,
            text_spans(
                process.spec_modules()[module_of(process.spec_modules(), target, 0)->0].sections@,
                0,
            ),
            ts,
        ),
{
    if links.inverse.contains_key(target) && module_of(process.spec_modules(), target, 0) is Some {
        let mem = process.spec_memory();
        let addrs = links.inverse[target];
        let vs = fresh_states(mem@, addrs);
        assert forall|k: int| 0 <= k < vs.len() implies from_memory(mem@, #[trigger] vs[k]) by {
            lemma_readable_prefix_bounds(mem@, addrs[k] as int, MAX_SIG_LENGTH as nat);
            mem.lemma_view_bounds();
            let got = readable_prefix(mem@, addrs[k] as int, MAX_SIG_LENGTH as nat);
            if got > 0 {
                assert(mem@.contains_key(addrs[k] + got - 1));
            }
        }
        let i = module_of(process.spec_modules(), target, 0)->0;
        lemma_rounds_unique(
            &mem,
            process.spec_bits(),
            text_spans(process.spec_modules()[i].sections@, 0),
            vs,
        );
    }
}

} // verus!
