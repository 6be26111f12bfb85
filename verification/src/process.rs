//! A captured picture of a process: its memory, the modules loaded into it
//! with their sections, and the width of its instruction set.

use crate::decode::valid_bitness;
use crate::error::Error;
use crate::memory::{MemoryImage, MemoryRange};
use vstd::prelude::*;

verus! {

/// A section of a module.
#[derive(Clone, Copy, Debug, PartialEq, Eq, Structural)]
pub struct SectionInfo {
    /// The address at which the section starts.
    pub base: u64,
    /// The number of bytes of the section.
    pub size: u64,
    /// Whether the section is marked as holding code.
    pub is_text: bool,
}

/// A module loaded into a process.
pub struct ModuleInfo {
    /// The address at which the module is loaded.
    pub base: u64,
    /// The number of bytes that the module takes up.
    pub size: u64,
    /// The sections of the module.
    pub sections: Vec<SectionInfo>,
}

impl ModuleInfo {
    /// Whether address `a` lies in the module.
    pub open spec fn contains(self, a: u64) -> bool {
        self.base <= a < self.base + self.size
    }

    /// Whether `a` lies in the module.
    pub fn has(&self, a: u64) -> (r: bool)
        ensures
            r == self.contains(a),
    {
        a >= self.base && a - self.base < self.size
    }

    /// No section reaches past the last address.
    pub open spec fn fits(self) -> bool {
        forall|j: int|
            0 <= j < self.sections.len() ==> (#[trigger] self.sections[j]).base
                + self.sections[j].size <= u64::MAX
    }
}

/// The spans of the sections of `sections` from index `j` on that hold
/// code, in their order.
pub open spec fn text_spans(sections: Seq<SectionInfo>, j: nat) -> Seq<MemoryRange>
    decreases sections.len() - j,
{
    if j < sections.len() {
        (if sections[j as int].is_text {
            seq![MemoryRange { base: sections[j as int].base, size: sections[j as int].size }]
        } else {
            Seq::empty()
        }) + text_spans(sections, j + 1)
    } else {
        Seq::empty()
    }
}

/// A picture of a process.
pub struct ProcessImage {
    bits: u32,
    memory: MemoryImage,
    modules: Vec<ModuleInfo>,
}

impl ProcessImage {
    /// The width of the instruction set, in bits.
    pub closed spec fn spec_bits(&self) -> u32 {
        self.bits
    }

    /// The memory.
    pub closed spec fn spec_memory(&self) -> MemoryImage {
        self.memory
    }

    /// The modules, in the order in which they were given.
    pub closed spec fn spec_modules(&self) -> Seq<ModuleInfo> {
        self.modules@
    }

    /// The width is one that the decoder knows, the memory is well formed,
    /// and no section reaches past the last address.
    pub open spec fn wf(&self) -> bool {
        &&& valid_bitness(self.spec_bits())
        &&& self.spec_memory().wf()
        &&& forall|i: int|
            0 <= i < self.spec_modules().len() ==> (#[trigger] self.spec_modules()[i]).fits()
    }

    /// The picture of a process of `bits` bits with the memory and the
    /// modules given. It is refused where the width is none of 16, 32 and
    /// 64, or a section reaches past the last address.
    pub fn new(bits: u32, memory: MemoryImage, modules: Vec<ModuleInfo>) -> (r: Result<Self, Error>)
        requires
            memory.wf(),
        ensures
            r is Ok <==> valid_bitness(bits) && forall|i: int|
                0 <= i < modules.len() ==> (#[trigger] modules[i]).fits(),
            match r {
                Ok(p) => p.wf() && p.spec_bits() == bits && p.spec_memory() == memory
                    && p.spec_modules() == modules@,
                Err(e) => e == Error::InvalidArgument,
            },
    {
        if !(bits == 16 || bits == 32 || bits == 64) {
            return Err(Error::InvalidArgument);
        }
        let mut i: usize = 0;
        while i < modules.len()
            invariant
                i <= modules.len(),
                forall|k: int| 0 <= k < i ==> (#[trigger] modules[k]).fits(),
            decreases modules.len() - i,
        {
            let m = &modules[i];
            let mut j: usize = 0;
            while j < m.sections.len()
                invariant
                    i < modules.len(),
                    *m == modules[i as int],
                    j <= m.sections.len(),
                    forall|k: int|
                        0 <= k < j ==> (#[trigger] m.sections[k]).base + m.sections[k].size
                            <= u64::MAX,
                decreases m.sections.len() - j,
            {
                let s = &m.sections[j];
                if s.size > u64::MAX - s.base {
                    assert(modules[i as int].sections[j as int].base + modules[i as int].sections[j as int].size
                        > u64::MAX);
                    return Err(Error::InvalidArgument);
                }
                j += 1;
            }
            i += 1;
        }
        Ok(ProcessImage { bits, memory, modules })
    }

    /// The width of the instruction set, in bits.
    pub fn bits(&self) -> (r: u32)
        ensures
            r == self.spec_bits(),
    {
        self.bits
    }

    /// The memory.
    pub fn memory(&self) -> (r: &MemoryImage)
        ensures
            *r == self.spec_memory(),
    {
        &self.memory
    }

    /// The modules.
    pub fn modules(&self) -> (r: &Vec<ModuleInfo>)
        ensures
            r@ == self.spec_modules(),
    {
        &self.modules
    }
}

/// The spans of the sections of the modules from index `i` on that hold
/// code, in their order.
pub open spec fn code_spans(modules: Seq<ModuleInfo>, i: nat) -> Seq<MemoryRange>
    decreases modules.len() - i,
{
    if i < modules.len() {
        text_spans(modules[i as int].sections@, 0) + code_spans(modules, i + 1)
    } else {
        Seq::empty()
    }
}

/// Every span ends within the address space.
pub open spec fn spans_fit(spans: Seq<MemoryRange>) -> bool {
    forall|j: int| 0 <= j < spans.len() ==> (#[trigger] spans[j]).base + spans[j].size <= u64::MAX
}

/// Appends to `out` the spans of the sections of `module` that hold code.
pub fn text_ranges(module: &ModuleInfo, out: &mut Vec<MemoryRange>)
    requires
        module.fits(),
        spans_fit(old(out)@),
    ensures
        final(out)@ == old(out)@ + text_spans(module.sections@, 0),
        spans_fit(final(out)@),
{
    let ghost before = out@;
    let ghost goal = text_spans(module.sections@, 0);
    let mut j: usize = 0;
    assert(before + goal =~= out@ + goal);
    while j < module.sections.len()
        invariant
            module.fits(),
            spans_fit(out@),
            j <= module.sections.len(),
            before + goal == out@ + text_spans(module.sections@, j as nat),
        decreases module.sections.len() - j,
    {
        let s = module.sections[j];
        let ghost prev = out@;
        let ghost rest = text_spans(module.sections@, (j + 1) as nat);
        if s.is_text {
            let span = MemoryRange { base: s.base, size: s.size };
            out.push(span);
            proof {
                assert(prev + (seq![span] + rest) =~= prev.push(span) + rest);
            }
        } else {
            proof {
                assert(prev + (Seq::<MemoryRange>::empty() + rest) =~= prev + rest);
            }
        }
        j += 1;
    }
    proof {
        assert(out@ + Seq::<MemoryRange>::empty() =~= out@);
    }
}

impl ProcessImage {
    /// The spans of all sections that hold code, module by module.
    pub fn code_ranges(&self) -> (r: Vec<MemoryRange>)
        requires
            self.wf(),
        ensures
            r@ == code_spans(self.spec_modules(), 0),
            spans_fit(r@),
    {
        let mut out: Vec<MemoryRange> = Vec::new();
        let ghost goal = code_spans(self.spec_modules(), 0);
        let mut i: usize = 0;
        assert(out@ + goal =~= goal);
        while i < self.modules.len()
            invariant
                self.wf(),
                spans_fit(out@),
                i <= self.modules.len(),
                goal == out@ + code_spans(self.spec_modules(), i as nat),
            decreases self.modules.len() - i,
        {
            let ghost prev = out@;
            let ghost here = text_spans(self.modules[i as int].sections@, 0);
            let ghost rest = code_spans(self.spec_modules(), (i + 1) as nat);
            assert(self.spec_modules()[i as int].fits());
            text_ranges(&self.modules[i], &mut out);
            proof {
                assert(prev + (here + rest) =~= prev + here + rest);
            }
            i += 1;
        }
        proof {
            assert(out@ + Seq::<MemoryRange>::empty() =~= out@);
        }
        out
    }
}

} // verus!
