//! The references that code makes to memory relative to the instruction
//! pointer, found by decoding the code sections of every module from start
//! to end.

use crate::decode::{decode_at, decoded, valid_bitness, InstrInfo};
use crate::error::Error;
use crate::links::{edge_map, lemma_edge_map, LinkMap, Links};
use crate::memory::{bytes_at, lemma_readable_prefix_bounds, readable, readable_prefix};
use crate::memory::{MemoryImage, MemoryRange};
use crate::process::{code_spans, spans_fit, ProcessImage};
use std::collections::BTreeMap;
use vstd::prelude::*;

verus! {

/// The number of addresses that one read of code covers.
pub const CODE_STRIDE: usize = 0x20_0000;

/// The number of bytes read beyond a stride, for the instruction that
/// starts in it and ends behind it.
pub const CODE_OVERLAP: usize = 32;

/// The reference that instruction `i` at address `ip` makes: an edge to the
/// address of its operand, where the operand is relative to the instruction
/// pointer and the instruction is no near branch.
pub open spec fn edge_seq(i: InstrInfo, ip: int) -> Seq<(u64, u64)> {
    if i.ip_rel_memory && i.near_branch_target == 0 {
        seq![(ip as u64, i.ip_rel_target)]
    } else {
        Seq::empty()
    }
}

/// The reference that instruction `instr` at address `ip` makes, if it
/// makes one.
pub fn edge_of(instr: &InstrInfo, ip: u64) -> (r: Option<(u64, u64)>)
    ensures
        r is Some <==> instr.ip_rel_memory && instr.near_branch_target == 0,
        r matches Some(e) ==> e == (ip, instr.ip_rel_target),
        r matches Some(e) ==> edge_seq(*instr, ip as int) == seq![e],
        r is None ==> edge_seq(*instr, ip as int) == Seq::<(u64, u64)>::empty(),
{
    if instr.ip_rel_memory && instr.near_branch_target == 0 {
        Some((ip, instr.ip_rel_target))
    } else {
        None
    }
}

/// What decoding a run of instructions gives: the references found, and
/// the offset behind the last instruction.
pub struct Run {
    /// The references found, in the order of the instructions.
    pub edges: Seq<(u64, u64)>,
    /// The offset behind the last instruction decoded.
    pub end: nat,
}

/// Decodes `bytes`, which stand at address `base_ip`, from offset `pos` on, one
/// instruction behind the other, as long as an instruction starts below
/// offset `stop` and the decoder takes at least one byte and no more than
/// there are.
pub open spec fn decode_run(bits: u32, bytes: Seq<u8>, base_ip: int, pos: nat, stop: int) -> Run
    decreases bytes.len() - pos,
{
    if pos < bytes.len() && pos < stop {
        let i = decoded(bits, bytes.subrange(pos as int, bytes.len() as int), (base_ip + pos) as u64);
        if i.len == 0 || i.len > bytes.len() - pos {
            Run { edges: Seq::empty(), end: pos }
        } else {
            let r = decode_run(bits, bytes, base_ip, pos + i.len as nat, stop);
            Run { edges: edge_seq(i, base_ip + pos) + r.edges, end: r.end }
        }
    } else {
        Run { edges: Seq::empty(), end: pos }
    }
}

/// Decodes the first `got` bytes of `buf`, which stand at address `base_ip`,
/// as one run, and appends the references found to `out`. The result is
/// the offset behind the last instruction.
pub fn decode_stride(
    bits: u32,
    buf: &[u8],
    got: usize,
    base_ip: u64,
    stop: usize,
    out: &mut Vec<(u64, u64)>,
) -> (end: usize)
    requires
        valid_bitness(bits),
        got <= buf.len(),
        base_ip + got <= u64::MAX,
    ensures
        final(out)@ == old(out)@ + decode_run(bits, buf@.take(got as int), base_ip as int, 0, stop as int).edges,
        end == decode_run(bits, buf@.take(got as int), base_ip as int, 0, stop as int).end,
        end <= got,
{
    let ghost bytes = buf@.take(got as int);
    let ghost before = out@;
    let ghost goal = decode_run(bits, bytes, base_ip as int, 0, stop as int);
    let mut pos: usize = 0;
    assert(before + goal.edges =~= out@ + goal.edges);
    loop
        invariant
            valid_bitness(bits),
            got <= buf.len(),
            base_ip + got <= u64::MAX,
            bytes == buf@.take(got as int),
            pos <= got,
            goal == decode_run(bits, bytes, base_ip as int, 0, stop as int),
            before + goal.edges == out@ + decode_run(
                bits,
                bytes,
                base_ip as int,
                pos as nat,
                stop as int,
            ).edges,
            goal.end == decode_run(bits, bytes, base_ip as int, pos as nat, stop as int).end,
        ensures
            out@ == before + goal.edges,
            pos == goal.end,
            pos <= got,
        decreases got - pos,
    {
        if !(pos < got && pos < stop) {
            proof {
                assert(out@ + Seq::<(u64, u64)>::empty() =~= out@);
            }
            break ;
        }
        let ip: u64 = base_ip + pos as u64;
        let instr = decode_at(bits, buf, pos, got, ip);
        proof {
            assert(buf@.subrange(pos as int, got as int) =~= bytes.subrange(
                pos as int,
                bytes.len() as int,
            ));
        }
        if instr.len == 0 || instr.len > got - pos {
            proof {
                assert(out@ + Seq::<(u64, u64)>::empty() =~= out@);
            }
            break ;
        }
        let ghost prev = out@;
        let ghost rest = decode_run(
            bits,
            bytes,
            base_ip as int,
            (pos + instr.len) as nat,
            stop as int,
        ).edges;
        match edge_of(&instr, ip) {
            Some(e) => {
                out.push(e);
                proof {
                    assert(prev + (seq![e] + rest) =~= prev.push(e) + rest);
                }
            },
            None => {
                proof {
                    assert(prev + (Seq::<(u64, u64)>::empty() + rest) =~= prev + rest);
                }
            },
        }
        pos = pos + instr.len;
    }
    pos
}

/// The references found in the code from `addr` up to `end`, or nothing
/// where a read touches a faulty address.
///
/// The code is read in strides. Each read takes [`CODE_STRIDE`] and
/// [`CODE_OVERLAP`] bytes, as far as they are readable, and is decoded as
/// one run of the instructions that start in the stride. The next stride
/// starts behind the last instruction of the run. Where a run decodes
/// nothing the rest of the code is left out.
pub open spec fn section_edges(mem: &MemoryImage, bits: u32, addr: int, end: int) -> Option<
    Seq<(u64, u64)>,
>
    decreases end - addr,
{
    if addr >= end {
        Some(Seq::empty())
    } else if mem.faulty_in(addr, CODE_STRIDE + CODE_OVERLAP) {
        None
    } else {
        let got = readable_prefix(mem@, addr, (CODE_STRIDE + CODE_OVERLAP) as nat);
        let run = decode_run(bits, bytes_at(mem@, addr, got as int), addr, 0, stride_stop(addr, end));
        if run.end == 0 || addr + run.end >= end {
            Some(run.edges)
        } else {
            behind(run.edges, section_edges(mem, bits, addr + run.end, end))
        }
    }
}

/// The offset at which the stride at `addr` of code up to `end` stops.
pub open spec fn stride_stop(addr: int, end: int) -> int {
    if end - addr < CODE_STRIDE {
        end - addr
    } else {
        CODE_STRIDE as int
    }
}

/// `edges` in front of what is found later, if that is found at all.
pub open spec fn behind(edges: Seq<(u64, u64)>, later: Option<Seq<(u64, u64)>>) -> Option<
    Seq<(u64, u64)>,
> {
    match later {
        Some(rest) => Some(edges + rest),
        None => None,
    }
}

/// One stride of a sweep of code.
proof fn lemma_section_step(mem: &MemoryImage, bits: u32, addr: int, end: int)
    requires
        addr < end,
    ensures
        mem.faulty_in(addr, CODE_STRIDE + CODE_OVERLAP) ==> section_edges(mem, bits, addr, end)
            is None,
        !mem.faulty_in(addr, CODE_STRIDE + CODE_OVERLAP) ==> {
            let got = readable_prefix(mem@, addr, (CODE_STRIDE + CODE_OVERLAP) as nat);
            let run = decode_run(
                bits,
                bytes_at(mem@, addr, got as int),
                addr,
                0,
                stride_stop(addr, end),
            );
            section_edges(mem, bits, addr, end) == if run.end == 0 || addr + run.end >= end {
                Some(run.edges)
            } else {
                behind(run.edges, section_edges(mem, bits, addr + run.end, end))
            }
        },
{
}

/// What is found before a stride, in front of what the stride and the
/// strides behind it find.
proof fn lemma_behind_behind(
    done: Seq<(u64, u64)>,
    here: Seq<(u64, u64)>,
    later: Option<Seq<(u64, u64)>>,
)
    ensures
        behind(done, behind(here, later)) == behind(done + here, later),
        behind(done, Some(here)) == Some(done + here),
{
    match later {
        Some(rest) => {
            assert(done + (here + rest) =~= done + here + rest);
        },
        None => {},
    }
}

/// Decodes the code from `start` up to `end` and appends the references
/// found to `out`; where a read touches a faulty address, `out` is left as
/// it was. `buf` is the room for one read.
pub fn sweep_section(
    mem: &MemoryImage,
    bits: u32,
    start: u64,
    end: u64,
    buf: &mut Vec<u8>,
    out: &mut Vec<(u64, u64)>,
) -> (r: Result<(), Error>)
    requires
        mem.wf(),
        valid_bitness(bits),
        old(buf).len() == CODE_STRIDE + CODE_OVERLAP,
    ensures
        final(buf).len() == old(buf).len(),
        r is Ok <==> section_edges(mem, bits, start as int, end as int) is Some,
        r is Ok ==> final(out)@ == old(out)@ + section_edges(mem, bits, start as int, end as int)->0,
        r matches Err(e) ==> e == Error::MemoryFatal && final(out)@ == old(out)@,
{
    let ghost before = out@;
    let held: usize = out.len();
    let ghost goal = section_edges(mem, bits, start as int, end as int);
    let mut addr: u64 = start;
    let ghost mut done: Seq<(u64, u64)> = Seq::empty();
    proof {
        assert(out@ =~= before + done);
        match goal {
            Some(es) => {
                assert(done + es =~= es);
            },
            None => {},
        }
    }
    while addr < end
        invariant_except_break
            goal == behind(done, section_edges(mem, bits, addr as int, end as int)),
        invariant
            mem.wf(),
            valid_bitness(bits),
            buf.len() == CODE_STRIDE + CODE_OVERLAP,
            buf.len() == old(buf).len(),
            out@ == before + done,
            held == before.len(),
            before == old(out)@,
            goal == section_edges(mem, bits, start as int, end as int),
        ensures
            goal == Some(done),
        decreases end - addr,
    {
        proof {
            lemma_section_step(mem, bits, addr as int, end as int);
        }
        match mem.read_raw_into(addr, buf) {
            Err(_) => {
                // What the strides before this one found is taken back.
                out.truncate(held);
                assert(out@ =~= before);
                return Err(Error::MemoryFatal);
            },
            Ok(got) => {
                proof {
                    lemma_readable_prefix_bounds(mem@, addr as int, (CODE_STRIDE + CODE_OVERLAP) as nat);
                    mem.lemma_view_bounds();
                    if got > 0 {
                        assert(mem@.contains_key(addr + got - 1));
                    }
                    assert(buf@.take(got as int) =~= bytes_at(mem@, addr as int, got as int));
                }
                let room: u64 = end - addr;
                let stop: usize = if room < CODE_STRIDE as u64 {
                    room as usize
                } else {
                    CODE_STRIDE
                };
                let ghost run = decode_run(
                    bits,
                    bytes_at(mem@, addr as int, got as int),
                    addr as int,
                    0,
                    stop as int,
                );
                let np = decode_stride(bits, buf.as_slice(), got, addr, stop, out);
                proof {
                    assert(before + done + run.edges =~= before + (done + run.edges));
                    lemma_behind_behind(
                        done,
                        run.edges,
                        section_edges(mem, bits, addr + run.end, end as int),
                    );
                    done = done + run.edges;
                }
                if np == 0 || np as u64 >= end - addr {
                    break ;
                }
                addr = addr + np as u64;
            },
        }
    }
    proof {
        if addr >= end {
            assert(done + Seq::<(u64, u64)>::empty() =~= done);
        }
    }
    Ok(())
}

/// The references found in the code of the spans from index `j` on, or
/// nothing where a read touches a faulty address.
pub open spec fn spans_edges(mem: &MemoryImage, bits: u32, spans: Seq<MemoryRange>, j: nat) -> Option<
    Seq<(u64, u64)>,
>
    decreases spans.len() - j,
{
    if j < spans.len() {
        match section_edges(mem, bits, spans[j as int].base as int, spans[j as int].end()) {
            Some(es) => behind(es, spans_edges(mem, bits, spans, j + 1)),
            None => None,
        }
    } else {
        Some(Seq::empty())
    }
}

/// The references found in the code of a process, module by module and
/// section by section, or nothing where a read touches a faulty address.
pub open spec fn code_edges(process: &ProcessImage) -> Option<Seq<(u64, u64)>> {
    spans_edges(
        &process.spec_memory(),
        process.spec_bits(),
        code_spans(process.spec_modules(), 0),
        0,
    )
}

/// Decodes the code of every span of `spans`: the references found, in the
/// order in which they were found.
pub fn sweep_code(mem: &MemoryImage, bits: u32, spans: &Vec<MemoryRange>) -> (r: Result<
    Vec<(u64, u64)>,
    Error,
>)
    requires
        mem.wf(),
        valid_bitness(bits),
        spans_fit(spans@),
    ensures
        r is Ok <==> spans_edges(mem, bits, spans@, 0) is Some,
        r matches Ok(es) ==> es@ == spans_edges(mem, bits, spans@, 0)->0,
        r matches Err(e) ==> e == Error::MemoryFatal,
{
    let mut out: Vec<(u64, u64)> = Vec::new();
    let mut buf: Vec<u8> = vec![0u8; CODE_STRIDE + CODE_OVERLAP];
    let ghost goal = spans_edges(mem, bits, spans@, 0);
    let mut j: usize = 0;
    proof {
        lemma_behind_behind(Seq::empty(), Seq::empty(), goal);
        match goal {
            Some(es) => {
                assert(out@ + es =~= es);
            },
            None => {},
        }
    }
    while j < spans.len()
        invariant
            mem.wf(),
            valid_bitness(bits),
            spans_fit(spans@),
            buf.len() == CODE_STRIDE + CODE_OVERLAP,
            j <= spans.len(),
            goal == spans_edges(mem, bits, spans@, 0),
            goal == behind(out@, spans_edges(mem, bits, spans@, j as nat)),
        decreases spans.len() - j,
    {
        let span = spans[j];
        let ghost prev = out@;
        let ghost here = section_edges(mem, bits, span.base as int, span.end());
        match sweep_section(mem, bits, span.base, span.base + span.size, &mut buf, &mut out) {
            Err(e) => {
                return Err(e);
            },
            Ok(()) => {
                proof {
                    lemma_behind_behind(
                        prev,
                        here->0,
                        spans_edges(mem, bits, spans@, (j + 1) as nat),
                    );
                }
            },
        }
        j += 1;
    }
    proof {
        assert(out@ + Seq::<(u64, u64)>::empty() =~= out@);
    }
    Ok(out)
}

/// What [`Disasm`] holds are edges from an instruction to the address that
/// it refers to. The targets are the globals.
pub struct Disasm {
    links: LinkMap,
}

impl View for Disasm {
    type V = Links;

    closed spec fn view(&self) -> Links {
        self.links@
    }
}

impl Default for Disasm {
    fn default() -> (r: Self)
        ensures
            r@ == Links::empty(),
            r@.wf(),
    {
        Disasm { links: LinkMap::new() }
    }
}

impl Disasm {
    /// An index without references.
    pub fn new() -> (r: Self)
        ensures
            r@ == Links::empty(),
            r@.wf(),
    {
        Disasm { links: LinkMap::new() }
    }

    /// Forgets every reference.
    pub fn reset(&mut self)
        ensures
            final(self)@ == Links::empty(),
            final(self)@.wf(),
    {
        self.links = LinkMap::new();
    }

    /// Fills the index with the references that the code of `process`
    /// makes.
    ///
    /// Every section that holds code is decoded from its start, in the
    /// order of the modules and of their sections. An instruction gives an
    /// edge from its address to the address of its memory operand when the
    /// operand is relative to the instruction pointer and the instruction
    /// is no near branch. Where two instructions stand at one address the
    /// one found first counts.
    ///
    /// This fails when a read touches a faulty address, and then leaves the
    /// index empty.
    pub fn collect_globals(&mut self, process: &ProcessImage) -> (r: Result<(), Error>)
        requires
            process.wf(),
        ensures
            r is Ok <==> code_edges(process) is Some,
            r is Ok ==> final(self)@.wf() && final(self)@.forward == edge_map(
                code_edges(process)->0,
            ),
            r matches Err(e) ==> e == Error::MemoryFatal && final(self)@ == Links::empty(),
    {
        self.links = LinkMap::new();
        let spans = process.code_ranges();
        match sweep_code(process.memory(), process.bits(), &spans) {
            Err(e) => Err(e),
            Ok(edges) => {
                self.links = LinkMap::from_edges(&edges);
                Ok(())
            },
        }
    }

    /// The address that each instruction refers to.
    pub fn map(&self) -> (r: &BTreeMap<u64, u64>)
        ensures
            r@ == self@.forward,
    {
        self.links.map()
    }

    /// The instructions that refer to each address.
    pub fn inverse_map(&self) -> (r: &BTreeMap<u64, Vec<u64>>)
        ensures
            forall|t: u64| r@.contains_key(t) <==> self@.inverse.contains_key(t),
            forall|t: u64| r@.contains_key(t) ==> r@[t]@ == self@.inverse[t],
    {
        self.links.inverse_map()
    }

    /// The addresses referred to, in ascending order.
    pub fn globals(&self) -> (r: &Vec<u64>)
        ensures
            r@ == self@.targets,
    {
        self.links.targets()
    }

    /// The instructions that refer to `target`, if there are any.
    pub fn references_to(&self, target: u64) -> (r: Option<&Vec<u64>>)
        ensures
            r is Some <==> self@.inverse.contains_key(target),
            r matches Some(l) ==> l@ == self@.inverse[target],
    {
        self.links.sources_of(target)
    }
}

/// Edge `e` is the reference of an instruction in memory `m`: the bytes
/// from the source of the edge on decode to an instruction that has a
/// memory operand relative to the instruction pointer at the target of the
/// edge, and that is no near branch.
pub open spec fn is_reference(m: Map<int, u8>, bits: u32, e: (u64, u64)) -> bool {
    exists|n: nat| #[trigger]
        readable(m, e.0 as int, n as int) && reference_of(
            decoded(bits, bytes_at(m, e.0 as int, n as int), e.0),
            e,
        )
}

/// Instruction `i` makes the reference `e`.
pub open spec fn reference_of(i: InstrInfo, e: (u64, u64)) -> bool {
    i.ip_rel_memory && i.near_branch_target == 0 && e.1 == i.ip_rel_target
}

/// Every edge of `es` is the reference of an instruction.
pub open spec fn all_references(m: Map<int, u8>, bits: u32, es: Seq<(u64, u64)>) -> bool {
    forall|q: int| 0 <= q < es.len() ==> is_reference(m, bits, #[trigger] es[q])
}

proof fn lemma_all_references_add(m: Map<int, u8>, bits: u32, a: Seq<(u64, u64)>, b: Seq<(u64, u64)>)
    requires
        all_references(m, bits, a),
        all_references(m, bits, b),
    ensures
        all_references(m, bits, a + b),
{
    assert forall|q: int| 0 <= q < (a + b).len() implies is_reference(m, bits, #[trigger] (a + b)[q]) by {
        if q < a.len() {
            assert((a + b)[q] == a[q]);
        } else {
            assert((a + b)[q] == b[q - a.len()]);
        }
    }
}

/// A run ends within its bytes.
proof fn lemma_run_end(bits: u32, bytes: Seq<u8>, base_ip: int, pos: nat, stop: int)
    requires
        pos <= bytes.len(),
    ensures
        pos <= decode_run(bits, bytes, base_ip, pos, stop).end <= bytes.len(),
    decreases bytes.len() - pos,
{
    if pos < bytes.len() && pos < stop {
        let i = decoded(bits, bytes.subrange(pos as int, bytes.len() as int), (base_ip + pos) as u64);
        if !(i.len == 0 || i.len > bytes.len() - pos) {
            lemma_run_end(bits, bytes, base_ip, pos + i.len as nat, stop);
        }
    }
}

/// A run finds nothing but references.
proof fn lemma_run_references(m: Map<int, u8>, bits: u32, addr: int, got: nat, pos: nat, stop: int)
    requires
        readable(m, addr, got as int),
        0 <= addr,
        addr + got <= u64::MAX,
    ensures
        all_references(m, bits, decode_run(bits, bytes_at(m, addr, got as int), addr, pos, stop).edges),
    decreases got - pos,
{
    let bytes = bytes_at(m, addr, got as int);
    if pos < bytes.len() && pos < stop {
        let ip = (addr + pos) as u64;
        let i = decoded(bits, bytes.subrange(pos as int, bytes.len() as int), ip);
        if !(i.len == 0 || i.len > bytes.len() - pos) {
            lemma_run_references(m, bits, addr, got, pos + i.len as nat, stop);
            let here = edge_seq(i, addr + pos);
            if here.len() > 0 {
                let n = (got - pos) as nat;
                assert(bytes.subrange(pos as int, bytes.len() as int) =~= bytes_at(
                    m,
                    ip as int,
                    n as int,
                ));
                assert(here[0] == (ip, i.ip_rel_target));
                assert(reference_of(decoded(bits, bytes_at(m, ip as int, n as int), ip), here[0]));
                assert(readable(m, here[0].0 as int, n as int));
                assert(is_reference(m, bits, here[0]));
            }
            lemma_all_references_add(
                m,
                bits,
                here,
                decode_run(bits, bytes, addr, pos + i.len as nat, stop).edges,
            );
        }
    }
}

/// A sweep of code finds nothing but references.
proof fn lemma_section_references(mem: &MemoryImage, bits: u32, addr: int, end: int)
    requires
        mem.wf(),
        0 <= addr <= u64::MAX,
    ensures
        section_edges(mem, bits, addr, end) matches Some(es) ==> all_references(mem@, bits, es),
    decreases end - addr,
{
    if addr < end && !mem.faulty_in(addr, CODE_STRIDE + CODE_OVERLAP) {
        let got = readable_prefix(mem@, addr, (CODE_STRIDE + CODE_OVERLAP) as nat);
        lemma_readable_prefix_bounds(mem@, addr, (CODE_STRIDE + CODE_OVERLAP) as nat);
        mem.lemma_view_bounds();
        if got > 0 {
            assert(mem@.contains_key(addr + got - 1));
        }
        let run = decode_run(bits, bytes_at(mem@, addr, got as int), addr, 0, stride_stop(addr, end));
        lemma_run_references(mem@, bits, addr, got, 0, stride_stop(addr, end));
        lemma_run_end(bits, bytes_at(mem@, addr, got as int), addr, 0, stride_stop(addr, end));
        if !(run.end == 0 || addr + run.end >= end) {
            lemma_section_references(mem, bits, addr + run.end, end);
            match section_edges(mem, bits, addr + run.end, end) {
                Some(rest) => {
                    lemma_all_references_add(mem@, bits, run.edges, rest);
                },
                None => {},
            }
        }
    }
}

/// A sweep of the code of several spans finds nothing but references.
pub proof fn lemma_spans_references(mem: &MemoryImage, bits: u32, spans: Seq<MemoryRange>, j: nat)
    requires
        mem.wf(),
    ensures
        spans_edges(mem, bits, spans, j) matches Some(es) ==> all_references(mem@, bits, es),
    decreases spans.len() - j,
{
    if j < spans.len() {
        lemma_section_references(mem, bits, spans[j as int].base as int, spans[j as int].end());
        lemma_spans_references(mem, bits, spans, j + 1);
        match (
            section_edges(mem, bits, spans[j as int].base as int, spans[j as int].end()),
            spans_edges(mem, bits, spans, j + 1),
        ) {
            (Some(es), Some(rest)) => {
                lemma_all_references_add(mem@, bits, es, rest);
            },
            _ => {},
        }
    }
}

/// No edge of the index comes from a near branch: every edge is the
/// reference of an instruction that has a memory operand relative to the
/// instruction pointer and whose near-branch target is zero.
pub proof fn lemma_index_references(process: &ProcessImage, forward: Map<u64, u64>, k: u64)
    requires
        process.wf(),
        code_edges(process) matches Some(es) && forward == edge_map(es),
        forward.contains_key(k),
    ensures
        is_reference(process.spec_memory()@, process.spec_bits(), (k, forward[k])),
{
    let es = code_edges(process)->0;
    lemma_spans_references(
        &process.spec_memory(),
        process.spec_bits(),
        code_spans(process.spec_modules(), 0),
        0,
    );
    lemma_edge_map(es, k);
    let i = choose|i: int|
        0 <= i < es.len() && (#[trigger] es[i]).0 == k && es[i].1 == edge_map(es)[k] && forall|
            j: int,
        |
            0 <= j < i ==> (#[trigger] es[j]).0 != k;
    assert(is_reference(process.spec_memory()@, process.spec_bits(), es[i]));
}

} // verus!
