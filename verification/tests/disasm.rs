use scanflow::disasm::{edge_of, Disasm};
use scanflow::decode::InstrInfo;
use scanflow::error::Error;
use scanflow::memory::{MemoryImage, MemoryRange};
use scanflow::process::{ModuleInfo, ProcessImage, SectionInfo};

fn code_image(base: u64, code: &[u8], len: usize) -> MemoryImage {
    let mut bytes = vec![0x90u8; len];
    bytes[..code.len()].copy_from_slice(code);
    let mut mem = MemoryImage::new();
    assert!(mem.map_region(base, bytes).is_ok());
    mem
}

fn one_module(base: u64, size: u64, text_size: u64) -> Vec<ModuleInfo> {
    vec![ModuleInfo {
        base,
        size,
        sections: vec![
            SectionInfo { base, size: text_size, is_text: true },
            SectionInfo { base: base + text_size, size: size - text_size, is_text: false },
        ],
    }]
}

#[test]
fn rip_relative_load_gives_an_edge() {
    let mem = code_image(0x400000, &[0x48, 0x8B, 0x05, 0x11, 0x22, 0x33, 0x44], 0x1000);
    let process = ProcessImage::new(64, mem, one_module(0x400000, 0x2000, 0x1000)).unwrap();
    let mut disasm = Disasm::new();
    assert_eq!(disasm.collect_globals(&process), Ok(()));
    let forward: Vec<(u64, u64)> = disasm.map().iter().map(|(k, v)| (*k, *v)).collect();
    assert_eq!(forward, vec![(0x400000, 0x400000 + 7 + 0x44332211)]);
    assert_eq!(disasm.globals(), &vec![0x400000u64 + 7 + 0x44332211]);
    let inverse: Vec<(u64, Vec<u64>)> =
        disasm.inverse_map().iter().map(|(k, v)| (*k, v.clone())).collect();
    assert_eq!(inverse, vec![(0x400000 + 7 + 0x44332211, vec![0x400000])]);
}

#[test]
fn near_branch_gives_no_edge() {
    // call +0x10; jmp +2; jne +0x100
    let code = [
        0xE8, 0x10, 0x00, 0x00, 0x00, 0xEB, 0x02, 0x0F, 0x85, 0x00, 0x01, 0x00, 0x00,
    ];
    let mem = code_image(0x400000, &code, 0x1000);
    let process = ProcessImage::new(64, mem, one_module(0x400000, 0x1000, 0x1000)).unwrap();
    let mut disasm = Disasm::new();
    assert_eq!(disasm.collect_globals(&process), Ok(()));
    assert!(disasm.map().is_empty());
    assert!(disasm.globals().is_empty());
}

#[test]
fn sections_without_code_are_left_out() {
    let mem = code_image(0x400000, &[0x48, 0x8B, 0x05, 0x11, 0x22, 0x33, 0x44], 0x1000);
    let modules = vec![ModuleInfo {
        base: 0x400000,
        size: 0x1000,
        sections: vec![SectionInfo { base: 0x400000, size: 0x1000, is_text: false }],
    }];
    let process = ProcessImage::new(64, mem, modules).unwrap();
    let mut disasm = Disasm::new();
    assert_eq!(disasm.collect_globals(&process), Ok(()));
    assert!(disasm.map().is_empty());
}

#[test]
fn decoding_goes_on_behind_the_first_stride() {
    // One reference at the start, one just behind the first two MiB.
    let load = [0x48u8, 0x8B, 0x05, 0x00, 0x00, 0x10, 0x00];
    let mut bytes = vec![0x90u8; 0x20_1000];
    bytes[..7].copy_from_slice(&load);
    bytes[0x20_0010..0x20_0017].copy_from_slice(&load);
    let mut mem = MemoryImage::new();
    assert!(mem.map_region(0x1000_0000, bytes).is_ok());
    let process =
        ProcessImage::new(64, mem, one_module(0x1000_0000, 0x20_1000, 0x20_1000)).unwrap();
    let mut disasm = Disasm::new();
    assert_eq!(disasm.collect_globals(&process), Ok(()));
    let forward: Vec<(u64, u64)> = disasm.map().iter().map(|(k, v)| (*k, *v)).collect();
    assert_eq!(
        forward,
        vec![
            (0x1000_0000, 0x1000_0007 + 0x10_0000),
            (0x1020_0010, 0x1020_0017 + 0x10_0000)
        ]
    );
}

#[test]
fn faulty_code_fails_the_sweep() {
    let mut mem = code_image(0x400000, &[0x48, 0x8B, 0x05, 0x11, 0x22, 0x33, 0x44], 0x1000);
    mem.mark_faulty(MemoryRange { base: 0x400800, size: 8 });
    let process = ProcessImage::new(64, mem, one_module(0x400000, 0x1000, 0x1000)).unwrap();
    let mut disasm = Disasm::new();
    assert_eq!(disasm.collect_globals(&process), Err(Error::MemoryFatal));
    assert!(disasm.map().is_empty());
}

#[test]
fn edge_of_wants_ip_relative_and_no_branch() {
    let base = InstrInfo {
        len: 7,
        invalid: false,
        ip_rel_memory: true,
        ip_rel_target: 0x5000,
        near_branch_target: 0,
    };
    assert_eq!(edge_of(&base, 0x4000), Some((0x4000, 0x5000)));
    let branch = InstrInfo { near_branch_target: 0x4100, ..base };
    assert_eq!(edge_of(&branch, 0x4000), None);
    let plain = InstrInfo { ip_rel_memory: false, ..base };
    assert_eq!(edge_of(&plain, 0x4000), None);
}

#[test]
fn process_wants_a_known_width() {
    let made = ProcessImage::new(48, MemoryImage::new(), vec![]);
    assert!(matches!(made, Err(Error::InvalidArgument)));
    let modules = vec![ModuleInfo {
        base: 0,
        size: 1,
        sections: vec![SectionInfo { base: u64::MAX, size: 1, is_text: true }],
    }];
    let made = ProcessImage::new(64, MemoryImage::new(), modules);
    assert!(matches!(made, Err(Error::InvalidArgument)));
}
