use scanflow::decode::{BaseRegister, ConstantSpans, OperandKind};
use scanflow::disasm::Disasm;
use scanflow::error::Error;
use scanflow::memory::MemoryImage;
use scanflow::process::{ModuleInfo, ProcessImage, SectionInfo};
use scanflow::sigmaker::{bytes_to_string, mask_branch, mask_instr, mask_mem, Sigmaker, Sigstate};

const GLOBAL: u64 = 0x500000;

fn load_global(ip: u64) -> [u8; 7] {
    let disp = (GLOBAL - (ip + 7)) as u32;
    let d = disp.to_le_bytes();
    [0x48, 0x8B, 0x05, d[0], d[1], d[2], d[3]]
}

fn two_references() -> ProcessImage {
    let mut bytes = vec![0x90u8; 0x1000];
    bytes[..7].copy_from_slice(&load_global(0x400000));
    bytes[7..10].copy_from_slice(&[0x83, 0x38, 0x00]);
    bytes[0x100..0x107].copy_from_slice(&load_global(0x400100));
    bytes[0x107..0x10A].copy_from_slice(&[0x83, 0x38, 0x01]);
    let mut mem = MemoryImage::new();
    assert!(mem.map_region(0x400000, bytes).is_ok());
    let modules = vec![ModuleInfo {
        base: 0x400000,
        size: 0x200000,
        sections: vec![SectionInfo { base: 0x400000, size: 0x1000, is_text: true }],
    }];
    ProcessImage::new(64, mem, modules).unwrap()
}

#[test]
fn both_references_get_a_signature() {
    let process = two_references();
    let mut disasm = Disasm::new();
    assert_eq!(disasm.collect_globals(&process), Ok(()));
    assert_eq!(disasm.globals(), &vec![GLOBAL]);
    let sigs = Sigmaker::find_sigs(&process, &disasm, GLOBAL);
    assert_eq!(
        sigs,
        Ok(vec![
            "48 8B 05 ? ? ? ? 83 38 00".to_string(),
            "48 8B 05 ? ? ? ? 83 38 01".to_string()
        ])
    );
}

#[test]
fn unknown_global_is_refused() {
    let process = two_references();
    let mut disasm = Disasm::new();
    assert_eq!(disasm.collect_globals(&process), Ok(()));
    assert_eq!(
        Sigmaker::find_sigs(&process, &disasm, GLOBAL + 8),
        Err(Error::InvalidArgument)
    );
}

#[test]
fn global_outside_every_module_is_refused() {
    let mut bytes = vec![0x90u8; 0x1000];
    bytes[..7].copy_from_slice(&load_global(0x400000));
    let mut mem = MemoryImage::new();
    assert!(mem.map_region(0x400000, bytes).is_ok());
    let modules = vec![ModuleInfo {
        base: 0x400000,
        size: 0x1000,
        sections: vec![SectionInfo { base: 0x400000, size: 0x1000, is_text: true }],
    }];
    let process = ProcessImage::new(64, mem, modules).unwrap();
    let mut disasm = Disasm::new();
    assert_eq!(disasm.collect_globals(&process), Ok(()));
    assert_eq!(
        Sigmaker::find_sigs(&process, &disasm, GLOBAL),
        Err(Error::ModuleNotFound)
    );
}

#[test]
fn signatures_that_never_differ_are_not_given() {
    // Two references followed by the same code to the end of what is read.
    let mut bytes = vec![0x90u8; 0x1000];
    bytes[..7].copy_from_slice(&load_global(0x400000));
    bytes[0x800..0x807].copy_from_slice(&load_global(0x400800));
    let mut mem = MemoryImage::new();
    assert!(mem.map_region(0x400000, bytes).is_ok());
    let modules = vec![ModuleInfo {
        base: 0x400000,
        size: 0x200000,
        sections: vec![SectionInfo { base: 0x400000, size: 0x1000, is_text: true }],
    }];
    let process = ProcessImage::new(64, mem, modules).unwrap();
    let mut disasm = Disasm::new();
    assert_eq!(disasm.collect_globals(&process), Ok(()));
    assert_eq!(Sigmaker::find_sigs(&process, &disasm, GLOBAL), Ok(vec![]));
}

#[test]
fn state_grows_by_one_instruction() {
    let mut code = load_global(0x400000).to_vec();
    code.extend_from_slice(&[0xE8, 0x11, 0x22, 0x33, 0x44, 0xEB, 0x05, 0x06]);
    let mut state = Sigstate::new(0x400000, code);
    assert!(state.add_single_instr(64));
    assert_eq!(state.mask(), &vec![0xFF, 0xFF, 0xFF, 0, 0, 0, 0]);
    assert!(state.add_single_instr(64));
    assert_eq!(
        state.mask(),
        &vec![0xFF, 0xFF, 0xFF, 0, 0, 0, 0, 0xFF, 0xFF, 0, 0, 0]
    );
    assert!(state.add_single_instr(64));
    assert_eq!(
        state.mask(),
        &vec![0xFF, 0xFF, 0xFF, 0, 0, 0, 0, 0xFF, 0xFF, 0, 0, 0, 0xFF, 0xFF]
    );
    // One byte is left, and it is no instruction of its own.
    assert!(!state.add_single_instr(64));
    assert_eq!(state.mask().len(), 14);
    assert_eq!(
        bytes_to_string(state.bytes(), state.mask()),
        "48 8B 05 ? ? ? ? E8 11 ? ? ? EB 05"
    );
    assert_eq!(state.start_ip(), 0x400000);
}

#[test]
fn text_of_a_signature() {
    assert_eq!(
        bytes_to_string(
            &[0x48, 0x8B, 0x05, 1, 2, 3, 4, 0x83, 0x38, 0x00],
            &[0xFF, 0xFF, 0xFF, 0, 0, 0, 0, 0xFF, 0xFF, 0xFF]
        ),
        "48 8B 05 ? ? ? ? 83 38 00"
    );
    assert_eq!(bytes_to_string(&[0x0A, 0xF0, 0xFF], &[0xFF, 0xFF]), "0A F0");
    assert_eq!(bytes_to_string(&[], &[]), "");
    assert_eq!(bytes_to_string(&[0x7C], &[0]), "?");
}

fn spans(
    displacement: Option<(usize, usize)>,
    immediate: Option<(usize, usize)>,
) -> ConstantSpans {
    ConstantSpans {
        has_displacement: displacement.is_some(),
        displacement_offset: displacement.map_or(0, |d| d.0),
        displacement_size: displacement.map_or(0, |d| d.1),
        has_immediate: immediate.is_some(),
        immediate_offset: immediate.map_or(0, |d| d.0),
        immediate_size: immediate.map_or(0, |d| d.1),
    }
}

#[test]
fn masks_leave_open_what_changes() {
    let mut mask = vec![0xFFu8; 10];
    mask_mem(&spans(Some((3, 4)), None), &mut mask, 2);
    assert_eq!(mask, vec![0xFF, 0xFF, 0xFF, 0xFF, 0xFF, 0, 0, 0, 0, 0xFF]);

    // The first byte of the immediate of a branch stays.
    let mut mask = vec![0xFFu8; 6];
    mask_branch(&spans(None, Some((1, 4))), &mut mask, 1, 1);
    assert_eq!(mask, vec![0xFF, 0xFF, 0xFF, 0, 0, 0]);

    let mut mask = vec![0xFFu8; 6];
    mask_branch(&spans(None, Some((1, 4))), &mut mask, 1, 3);
    assert_eq!(mask, vec![0xFF, 0xFF, 0xFF, 0xFF, 0xFF, 0]);

    // An immediate of one byte stays.
    let mut mask = vec![0xFFu8; 3];
    mask_branch(&spans(None, Some((1, 1))), &mut mask, 0, 1);
    assert_eq!(mask, vec![0xFF, 0xFF, 0xFF]);

    // No displacement, nothing to leave open.
    let mut mask = vec![0xFFu8; 3];
    mask_mem(&spans(None, None), &mut mask, 0);
    assert_eq!(mask, vec![0xFF, 0xFF, 0xFF]);

    // A span that reaches past the mask is cut off.
    let mut mask = vec![0xFFu8; 4];
    mask_mem(&spans(Some((2, 8)), None), &mut mask, 0);
    assert_eq!(mask, vec![0xFF, 0xFF, 0, 0]);
}

#[test]
fn instruction_mask_goes_by_base_and_kind() {
    let both = spans(Some((1, 2)), Some((3, 2)));
    let mut mask = vec![0xFFu8; 5];
    mask_instr(BaseRegister::Rip, OperandKind::Other, &both, &mut mask, 0);
    assert_eq!(mask, vec![0xFF, 0, 0, 0xFF, 0xFF]);

    let mut mask = vec![0xFFu8; 5];
    mask_instr(BaseRegister::Other, OperandKind::NearBranch64, &both, &mut mask, 0);
    assert_eq!(mask, vec![0xFF, 0xFF, 0xFF, 0xFF, 0]);

    let mut mask = vec![0xFFu8; 5];
    mask_instr(BaseRegister::Absent, OperandKind::FarBranch16, &both, &mut mask, 0);
    assert_eq!(mask, vec![0xFF, 0, 0, 0xFF, 0]);

    // A call with an immediate of four bytes behind its first byte.
    let call = spans(None, Some((1, 4)));
    let mut mask = vec![0xFFu8; 5];
    mask_instr(BaseRegister::Absent, OperandKind::NearBranch64, &call, &mut mask, 0);
    assert_eq!(mask, vec![0xFF, 0xFF, 0, 0, 0]);

    let mut mask = vec![0xFFu8; 5];
    mask_instr(BaseRegister::Other, OperandKind::Other, &both, &mut mask, 0);
    assert_eq!(mask, vec![0xFF; 5]);
}
