use scanflow::disasm::Disasm;
use scanflow::error::Error;
use scanflow::memory::{view_map, MemoryImage, MemoryRange};
use scanflow::pointer_map::{collect_pointers, in_any_span, le_u64, PointerMap};
use scanflow::process::{ModuleInfo, ProcessImage, SectionInfo};
use scanflow::sigmaker::{has_unique_matches, Sigmaker, Sigstate};
use scanflow::sweep::{block_end, block_width, read_block};
use scanflow::value_scanner::{find_in_window, matches_at, refine, sweep, ValueScanner};

fn zeroed(regions: &[(u64, usize)]) -> MemoryImage {
    let mut mem = MemoryImage::new();
    for (base, len) in regions {
        assert_eq!(mem.map_region(*base, vec![0u8; *len]), Ok(()));
    }
    mem
}

fn bytes_at(mem: &MemoryImage, addr: u64, len: usize) -> Option<Vec<u8>> {
    let mut buf = vec![0u8; len];
    match mem.read_raw_into(addr, &mut buf) {
        Ok(n) if n == len => Some(buf),
        _ => None,
    }
}

#[test]
fn scanning_twice_changes_nothing() {
    let mut mem = zeroed(&[(0x1000, 0x3000)]);
    let p = [0xAB, 0xCD, 0xEF];
    for a in [0x1000u64, 0x1FFE, 0x2500, 0x3FFD] {
        assert_eq!(mem.write_raw(a, &p), Ok(()));
    }
    let mut scanner = ValueScanner::new();
    assert_eq!(scanner.scan_for(&mem, &p), Ok(()));
    let first = scanner.matches().clone();
    assert_eq!(first, vec![0x1000, 0x1FFE, 0x2500, 0x3FFD]);
    assert_eq!(scanner.scan_for(&mem, &p), Ok(()));
    assert_eq!(scanner.matches(), &first);
    assert_eq!(scanner.scan_for(&mem, &p), Ok(()));
    assert_eq!(scanner.matches(), &first);
}

#[test]
fn refinement_only_takes_away() {
    let mut mem = zeroed(&[(0x1000, 0x2000)]);
    let p = [1u8, 2, 3, 4];
    for a in [0x1100u64, 0x1200, 0x1300, 0x2400] {
        assert_eq!(mem.write_raw(a, &p), Ok(()));
    }
    let mut scanner = ValueScanner::new();
    assert_eq!(scanner.scan_for(&mem, &p), Ok(()));
    let before = scanner.matches().clone();
    assert_eq!(mem.write_raw(0x1200, &[9]), Ok(()));
    assert_eq!(mem.write_raw(0x2403, &[9]), Ok(()));
    // A new place where the pattern stands is not found by a refinement.
    assert_eq!(mem.write_raw(0x1800, &p), Ok(()));
    assert_eq!(scanner.scan_for(&mem, &p), Ok(()));
    let after = scanner.matches().clone();
    assert_eq!(after, vec![0x1100, 0x1300]);
    assert!(after.iter().all(|a| before.contains(a)));
    assert!(after.len() <= before.len());
}

#[test]
fn every_match_holds_the_pattern() {
    let mut mem = zeroed(&[(0x1234, 0x2345), (0x10_0000, 0x100)]);
    let p = [0u8, 0, 7];
    for a in [0x1234u64, 0x2232, 0x3000, 0x3576, 0x10_00FD] {
        assert_eq!(mem.write_raw(a + 2, &[7]), Ok(()));
    }
    let mut scanner = ValueScanner::new();
    assert_eq!(scanner.scan_for(&mem, &p), Ok(()));
    assert_eq!(
        scanner.matches(),
        &vec![0x1234, 0x2232, 0x3000, 0x3576, 0x10_00FD]
    );
    for a in scanner.matches() {
        assert_eq!(bytes_at(&mem, *a, p.len()), Some(p.to_vec()));
    }
    assert!(scanner.matches().windows(2).all(|w| w[0] < w[1]));
}

#[test]
fn a_pattern_over_the_edge_of_a_region_is_no_match() {
    // Two regions one page apart are one span of the map; the bytes between
    // them cannot be read.
    let mut mem = zeroed(&[(0x10000, 0x1000), (0x12000, 0x1000)]);
    assert_eq!(mem.write_raw(0x10FFE, &[5, 5]), Ok(()));
    assert_eq!(mem.write_raw(0x12000, &[5, 5]), Ok(()));
    assert_eq!(mem.write_raw(0x12FFF, &[5]), Ok(()));
    let mut scanner = ValueScanner::new();
    assert_eq!(scanner.scan_for(&mem, &[5, 5]), Ok(()));
    assert_eq!(
        scanner.mem_map(),
        &vec![MemoryRange { base: 0x10000, size: 0x3000 }]
    );
    assert_eq!(scanner.matches(), &vec![0x10FFE, 0x12000]);
    let mut one = ValueScanner::new();
    assert_eq!(one.scan_for(&mem, &[5]), Ok(()));
    assert_eq!(
        one.matches(),
        &vec![0x10FFE, 0x10FFF, 0x12000, 0x12001, 0x12FFF]
    );
}

#[test]
fn holes_hide_nothing_but_themselves() {
    // One byte is missing at 0x1800, and three in front of 0x2000.
    let mut mem = zeroed(&[(0x1000, 0x800), (0x1801, 0x7FC), (0x2000, 0x1000)]);
    for a in [0x1400u64, 0x17FE, 0x1801, 0x1900, 0x1FFB, 0x2000, 0x2100] {
        assert_eq!(mem.write_raw(a, &[3, 3]), Ok(()));
    }
    let mut scanner = ValueScanner::new();
    assert_eq!(scanner.scan_for(&mem, &[3, 3]), Ok(()));
    assert_eq!(
        scanner.matches(),
        &vec![0x1400, 0x17FE, 0x1801, 0x1900, 0x1FFB, 0x2000, 0x2100]
    );
    let mut three = ValueScanner::new();
    assert_eq!(three.scan_for(&mem, &[3, 3, 3]), Ok(()));
    assert!(three.matches().is_empty());
}

#[test]
fn matches_can_be_edited_between_scans() {
    let mut mem = zeroed(&[(0x1000, 0x1000)]);
    assert_eq!(mem.write_raw(0x1100, &[8, 8]), Ok(()));
    assert_eq!(mem.write_raw(0x1700, &[8, 8]), Ok(()));
    let mut scanner = ValueScanner::default();
    assert!(!scanner.scanned());
    assert_eq!(scanner.scan_for(&mem, &[8, 8]), Ok(()));
    assert!(scanner.scanned());
    scanner.matches_mut().push(0x1100);
    scanner.matches_mut().push(0x5000);
    scanner.matches_mut().push(0x1FFF);
    scanner.matches_mut().insert(0, 0x1200);
    assert_eq!(scanner.scan_for(&mem, &[8, 8]), Ok(()));
    // What is kept stays in its order, and what stood there twice stays twice.
    assert_eq!(scanner.matches(), &vec![0x1100, 0x1700, 0x1100]);
    scanner.reset();
    assert!(!scanner.scanned());
    assert!(scanner.matches().is_empty());
    assert!(scanner.mem_map().is_empty());
    assert_eq!(scanner.scan_for(&mem, &[8]), Ok(()));
    assert_eq!(scanner.matches(), &vec![0x1100, 0x1101, 0x1700, 0x1701]);
}

#[test]
fn a_faulty_match_fails_the_refinement() {
    let mut mem = zeroed(&[(0x1000, 0x1000)]);
    assert_eq!(mem.write_raw(0x1100, &[8, 8]), Ok(()));
    let mut scanner = ValueScanner::new();
    assert_eq!(scanner.scan_for(&mem, &[8, 8]), Ok(()));
    mem.mark_faulty(MemoryRange { base: 0x1101, size: 1 });
    assert_eq!(scanner.scan_for(&mem, &[8, 8]), Err(Error::MemoryFatal));
    assert_eq!(scanner.matches(), &vec![0x1100]);
    // Nothing is read for the empty pattern.
    assert_eq!(scanner.scan_for(&mem, &[]), Ok(()));
    assert!(scanner.matches().is_empty());
}

#[test]
fn scans_stop_below_the_address_limit() {
    let limit = 1u64 << 47;
    let mut mem = zeroed(&[(limit - 0x10, 0x20)]);
    assert_eq!(mem.write_raw(limit - 2, &[1, 1, 1]), Ok(()));
    let mut scanner = ValueScanner::new();
    assert_eq!(scanner.scan_for(&mem, &[1, 1]), Ok(()));
    assert_eq!(
        scanner.mem_map(),
        &vec![MemoryRange { base: limit - 0x10, size: 0x10 }]
    );
    // The window may reach over the limit, its start may not.
    assert_eq!(scanner.matches(), &vec![limit - 2, limit - 1]);
}

#[test]
fn sweep_and_refine_on_their_own() {
    let mut mem = zeroed(&[(0x1000, 0x100)]);
    assert_eq!(mem.write_raw(0x1010, &[6, 6, 6]), Ok(()));
    let spans = vec![MemoryRange { base: 0x1008, size: 0x10 }];
    assert_eq!(sweep(&mem, &spans, &[6, 6]), Ok(vec![0x1010, 0x1011]));
    assert_eq!(sweep(&mem, &vec![], &[6, 6]), Ok(vec![]));
    assert_eq!(
        refine(&mem, &vec![0x1012, 0x1011, 0x900, 0x1011], &[6, 6]),
        Ok(vec![0x1011, 0x1011])
    );
    assert_eq!(refine(&mem, &vec![0x1011], &[]), Ok(vec![]));
    mem.mark_faulty(MemoryRange { base: 0x1019, size: 1 });
    // A window at the last address of the span reaches 0x1018, not 0x1019.
    assert_eq!(sweep(&mem, &spans, &[6, 6]), Ok(vec![0x1010, 0x1011]));
    assert_eq!(sweep(&mem, &spans, &[6, 6, 6]), Err(Error::MemoryFatal));
    assert_eq!(refine(&mem, &vec![0x1010, 0x1017], &[6, 6]), Ok(vec![0x1010]));
    assert_eq!(refine(&mem, &vec![0x1018], &[6, 6]), Err(Error::MemoryFatal));
}

#[test]
fn windows_and_strides() {
    assert!(matches_at(&[1, 2, 3, 4], 1, &[2, 3]));
    assert!(!matches_at(&[1, 2, 3, 4], 2, &[2, 3]));
    assert!(!matches_at(&[1, 2, 3, 4], 3, &[4, 5]));
    assert!(matches_at(&[1, 2, 3, 4], 4, &[]));
    assert!(!matches_at(&[1, 2, 3, 4], 5, &[]));
    let mut out = vec![7u64];
    find_in_window(0x100, &[1, 1, 1, 1, 1], 4, 10, &[1, 1], &mut out);
    assert_eq!(out, vec![7, 0x100, 0x101, 0x102]);
    find_in_window(0x200, &[1, 1, 1, 1, 1], 5, 2, &[1, 1], &mut out);
    assert_eq!(out, vec![7, 0x100, 0x101, 0x102, 0x200, 0x201]);
    find_in_window(0x300, &[1, 1], 1, 2, &[1, 1], &mut out);
    assert_eq!(out.len(), 6);
    assert_eq!(block_end(0, 0x1000, 0x1000), 0x1000);
    assert_eq!(block_end(0, 0x1001, 0x1000), 0x1000);
    assert_eq!(block_end(0x1000, 0x1001, 0x1000), 0x1001);
    assert_eq!(block_end(0x123, 0x5000, 0x1000), 0x1123);
    assert_eq!(block_end(0, 1, 0x1000), 1);
    assert_eq!(block_end(0x100, 0x1000, 0x10), 0x110);
    assert_eq!(block_width(1), 0x1000);
    assert_eq!(block_width(usize::MAX - 0x1000 + 1), 0x1000);
    assert_eq!(block_width(usize::MAX - 0x1000 + 2), 0xFFF);
    assert_eq!(block_width(usize::MAX), 1);
}

#[test]
fn a_block_is_read_up_to_the_next_hole() {
    let mut mem = MemoryImage::new();
    assert_eq!(mem.map_region(0x1000, (0..0x10).collect()), Ok(()));
    assert_eq!(mem.map_region(0x1018, (0x18..0x30).collect()), Ok(()));
    let mut buf = vec![0xEEu8; 0x1000 + 3];
    // All of the block and what a window at its end reaches can be read.
    assert_eq!(read_block(&mem, 0x1000, 0x100D, 4, &mut buf), (0x10, 0x100D));
    assert_eq!(&buf[..0x10], &(0..0x10).collect::<Vec<u8>>()[..]);
    assert_eq!(buf[0x10], 0xEE);
    // A hole: go on where memory can be read again.
    assert_eq!(read_block(&mem, 0x1008, 0x1020, 4, &mut buf), (8, 0x1018));
    assert_eq!(read_block(&mem, 0x1010, 0x1020, 4, &mut buf), (0, 0x1018));
    assert_eq!(read_block(&mem, 0x1010, 0x1014, 4, &mut buf), (0, 0x1014));
    assert_eq!(read_block(&mem, 0x1028, 0x1030, 4, &mut buf), (8, 0x1030));
    assert_eq!(read_block(&mem, 0x1030, 0x1040, 4, &mut buf), (0, 0x1040));
}

fn pointers() -> MemoryImage {
    let mut mem = zeroed(&[(0x10000, 0x2000), (0x40000, 0x1000)]);
    // Aligned, unaligned, across a stride, to the last address of a span,
    // and one behind the end of a span, which is no pointer.
    for (at, to) in [
        (0x10008u64, 0x40010u64),
        (0x10803, 0x10000),
        (0x10FFC, 0x40FFF),
        (0x40100, 0x11FFF),
        (0x40200, 0x12000),
        (0x40300, 0x41000),
    ] {
        assert_eq!(mem.write_raw(at, &to.to_le_bytes()), Ok(()));
    }
    mem
}

#[test]
fn every_pointer_stands_in_memory_and_points_into_the_map() {
    let mem = pointers();
    let mut map = PointerMap::new();
    assert_eq!(map.create_map(&mem, 8), Ok(()));
    let spans = mem.mapped_mem_range_vec(0x100_0000, 0, 1 << 47);
    assert_eq!(spans, vec![MemoryRange { base: 0x10000, size: 0x31000 }]);
    let forward: Vec<(u64, u64)> = map.map().iter().map(|(k, v)| (*k, *v)).collect();
    // The hole between the regions belongs to the map, so 0x12000 counts.
    assert_eq!(
        forward,
        vec![
            (0x10008, 0x40010),
            (0x10803, 0x10000),
            (0x10FFC, 0x40FFF),
            (0x40100, 0x11FFF),
            (0x40200, 0x12000)
        ]
    );
    for (k, v) in map.map().iter() {
        assert_eq!(bytes_at(&mem, *k, 8), Some(v.to_le_bytes().to_vec()));
        assert!(spans.iter().any(|s| s.has(*v)));
    }
    assert_eq!(
        map.pointers(),
        &vec![0x10008, 0x10803, 0x10FFC, 0x40100, 0x40200]
    );
}

#[test]
fn both_directions_hold_the_same_edges() {
    let mem = pointers();
    let mut map = PointerMap::new();
    assert_eq!(map.create_map(&mem, 8), Ok(()));
    let mut from_forward: Vec<(u64, u64)> = map.map().iter().map(|(k, v)| (*k, *v)).collect();
    let mut from_inverse: Vec<(u64, u64)> = map
        .inverse_map()
        .iter()
        .flat_map(|(t, sources)| sources.iter().map(move |s| (*s, *t)))
        .collect();
    from_forward.sort();
    from_inverse.sort();
    assert_eq!(from_forward, from_inverse);
    map.reset();
    assert!(map.map().is_empty() && map.inverse_map().is_empty() && map.pointers().is_empty());
}

#[test]
fn pointers_of_four_bytes() {
    let mut mem = zeroed(&[(0x10000, 0x1000)]);
    assert_eq!(mem.write_raw(0x10010, &[0x20, 0x00, 0x01, 0x00, 0xFF]), Ok(()));
    let mut map = PointerMap::default();
    assert_eq!(map.create_map(&mem, 4), Ok(()));
    let forward: Vec<(u64, u64)> = map.map().iter().map(|(k, v)| (*k, *v)).collect();
    assert_eq!(forward, vec![(0x10010, 0x10020)]);
    // Read as eight bytes the word is too large to be an address here.
    assert_eq!(map.create_map(&mem, 8), Ok(()));
    assert!(map.map().is_empty());
    assert_eq!(map.create_map(&mem, 1), Ok(()));
    assert!(map.map().is_empty());
}

#[test]
fn a_fault_leaves_the_pointer_map_empty() {
    let mut mem = pointers();
    let mut map = PointerMap::new();
    assert_eq!(map.create_map(&mem, 8), Ok(()));
    mem.mark_faulty(MemoryRange { base: 0x40800, size: 1 });
    assert_eq!(map.create_map(&mem, 8), Err(Error::MemoryFatal));
    assert!(map.map().is_empty() && map.pointers().is_empty());
    let spans = mem.mapped_mem_range_vec(0x100_0000, 0, 1 << 47);
    assert_eq!(collect_pointers(&mem, &spans, 8), Err(Error::MemoryFatal));
}

#[test]
fn words_and_spans() {
    assert_eq!(le_u64(&[0x11, 0x22, 0x33, 0x44, 0x55], 1, 4), 0x55443322);
    assert_eq!(le_u64(&[0xFF; 9], 1, 8), u64::MAX);
    assert_eq!(le_u64(&[0x80, 0x01], 0, 2), 0x0180);
    assert_eq!(le_u64(&[1, 2, 3], 3, 0), 0);
    let spans = [
        MemoryRange { base: 0x10, size: 0x10 },
        MemoryRange { base: 0x30, size: 1 },
        MemoryRange { base: 0x40, size: 0x10 },
    ];
    for (a, inside) in [
        (0xFu64, false),
        (0x10, true),
        (0x1F, true),
        (0x20, false),
        (0x30, true),
        (0x31, false),
        (0x3F, false),
        (0x4F, true),
        (0x50, false),
        (u64::MAX, false),
    ] {
        assert_eq!(in_any_span(&spans, a), inside);
    }
    assert!(!in_any_span(&[], 0));
}

#[test]
fn every_chain_leads_to_its_target() {
    let mem = pointers();
    let mut map = PointerMap::new();
    assert_eq!(map.create_map(&mem, 8), Ok(()));
    let targets = [0x40018u64, 0x10004, 0x12010];
    let chains = map.find_matches((0x20, 0x20), 3, &targets);
    assert!(!chains.is_empty());
    for (target, steps) in &chains {
        assert!(targets.contains(target));
        assert!(!steps.is_empty() && steps.len() <= 3);
        for pair in steps.windows(2) {
            let at = pair[0].0.wrapping_add(pair[0].1 as u64);
            assert_eq!(map.map().get(&at), Some(&pair[1].0));
        }
        let last = steps.last().unwrap();
        assert_eq!(last.0.wrapping_add(last.1 as u64), *target);
        assert!(steps.iter().all(|(_, o)| (-0x20..=0x20).contains(o)));
        assert!(map.pointers().contains(&steps[0].0));
    }
    assert!(chains.contains(&(0x40018, vec![(0x10008, 0), (0x40010, 8)])));
    assert!(chains.contains(&(
        0x10004,
        vec![(0x10FFC, 0), (0x40FFF, -0xEFF + 0xEE0), (0x10000, 4)]
    )) || chains.iter().any(|(t, s)| *t == 0x10004 && s.len() == 2));
}

fn code_process(faulty: Option<MemoryRange>) -> ProcessImage {
    // Four loads of one global. The first two go on alike for as long as a
    // signature reaches, the third stands in a section without code, the
    // fourth is followed by code of its own.
    let global = 0x600000u64;
    let load = |ip: u64| {
        let d = ((global - (ip + 7)) as u32).to_le_bytes();
        [0x48u8, 0x8B, 0x05, d[0], d[1], d[2], d[3]]
    };
    let mut bytes = vec![0x90u8; 0x3000];
    bytes[0x10..0x17].copy_from_slice(&load(0x400010));
    bytes[0x810..0x817].copy_from_slice(&load(0x400810));
    bytes[0x1010..0x1017].copy_from_slice(&load(0x401010));
    bytes[0x2010..0x2017].copy_from_slice(&load(0x402010));
    bytes[0x2017..0x2019].copy_from_slice(&[0x31, 0xDB]);
    let mut mem = MemoryImage::new();
    assert_eq!(mem.map_region(0x400000, bytes), Ok(()));
    if let Some(f) = faulty {
        mem.mark_faulty(f);
    }
    let modules = vec![
        ModuleInfo { base: 0x100000, size: 0x1000, sections: vec![] },
        ModuleInfo {
            base: 0x400000,
            size: 0x400000,
            sections: vec![
                SectionInfo { base: 0x400000, size: 0x1000, is_text: true },
                SectionInfo { base: 0x401000, size: 0x1000, is_text: false },
                SectionInfo { base: 0x402000, size: 0x1000, is_text: true },
            ],
        },
    ];
    ProcessImage::new(64, mem, modules).unwrap()
}

#[test]
fn a_signature_matches_at_its_own_address_only() {
    let process = code_process(None);
    let mut disasm = Disasm::new();
    assert_eq!(disasm.collect_globals(&process), Ok(()));
    // The load in the section without code is not in the index.
    assert_eq!(
        disasm.references_to(0x600000),
        Some(&vec![0x400010, 0x400810, 0x402010])
    );
    let sigs = Sigmaker::find_sigs(&process, &disasm, 0x600000).unwrap();
    assert_eq!(sigs, vec!["48 8B 05 ? ? ? ? 31 DB".to_string()]);

    // By hand: where in the code of the module does the signature stand?
    let bytes = [0x48u8, 0x8B, 0x05, 0, 0, 0, 0, 0x31, 0xDB];
    let mask = [0xFFu8, 0xFF, 0xFF, 0, 0, 0, 0, 0xFF, 0xFF];
    let mut found = vec![];
    for section in [0x400000u64, 0x402000] {
        for a in section..section + 0x1000 {
            if let Some(there) = bytes_at(process.memory(), a, bytes.len()) {
                if (0..bytes.len()).all(|i| there[i] & mask[i] == bytes[i] & mask[i]) {
                    found.push(a);
                }
            }
        }
    }
    assert_eq!(found, vec![0x402010]);
}

#[test]
fn a_fault_in_the_code_fails_the_search_for_signatures() {
    let clean = code_process(None);
    let mut disasm = Disasm::new();
    assert_eq!(disasm.collect_globals(&clean), Ok(()));
    let at_candidate = code_process(Some(MemoryRange { base: 0x40208F, size: 1 }));
    assert_eq!(
        Sigmaker::find_sigs(&at_candidate, &disasm, 0x600000),
        Err(Error::MemoryFatal)
    );
    let in_code = code_process(Some(MemoryRange { base: 0x400C00, size: 1 }));
    assert_eq!(
        Sigmaker::find_sigs(&in_code, &disasm, 0x600000),
        Err(Error::MemoryFatal)
    );
    // A signature at the last address of a section reaches 127 bytes on.
    let behind = code_process(Some(MemoryRange { base: 0x40107E, size: 1 }));
    assert_eq!(
        Sigmaker::find_sigs(&behind, &disasm, 0x600000),
        Err(Error::MemoryFatal)
    );
    // Code that is not searched may be faulty.
    let elsewhere = code_process(Some(MemoryRange { base: 0x40107F, size: 0x100 }));
    assert_eq!(
        Sigmaker::find_sigs(&elsewhere, &disasm, 0x600000),
        Ok(vec!["48 8B 05 ? ? ? ? 31 DB".to_string()])
    );
}

#[test]
fn unique_matches_of_states_by_hand() {
    let mut mem = zeroed(&[(0x1000, 0x1000)]);
    assert_eq!(mem.write_raw(0x1100, &[0x90, 0x31, 0xDB]), Ok(()));
    assert_eq!(mem.write_raw(0x1200, &[0x90, 0x31, 0xD2]), Ok(()));
    let spans = vec![MemoryRange { base: 0x1000, size: 0x1000 }];
    let mut a = Sigstate::new(0x1100, vec![0x90, 0x31, 0xDB]);
    let mut b = Sigstate::new(0x1200, vec![0x90, 0x31, 0xD2]);
    assert!(a.add_single_instr(64) && b.add_single_instr(64));
    let mut out = vec!["kept".to_string()];
    let states = vec![a, b];
    assert_eq!(has_unique_matches(&states, &mem, &spans, &mut out), Ok(false));
    assert_eq!(out, vec!["kept".to_string()]);
    let mut states = states;
    assert!(states[0].add_single_instr(64));
    assert_eq!(
        has_unique_matches(&states, &mem, &spans, &mut out),
        Ok(true)
    );
    assert_eq!(out, vec!["kept".to_string(), "90 31 DB".to_string()]);
    // Without code to search, every signature is unique.
    assert_eq!(has_unique_matches(&states, &mem, &vec![], &mut out), Ok(true));
    assert_eq!(out.len(), 4);
    assert_eq!(out[3], "90");
}

#[test]
fn map_of_a_bare_view() {
    assert_eq!(
        view_map(0, 1 << 47, 0x1_0000_0000),
        vec![MemoryRange { base: 0, size: 0x1_0000_0000 }]
    );
    assert_eq!(
        view_map(0x1000, 0x3000, 0x1_0000_0000),
        vec![MemoryRange { base: 0x1000, size: 0x2000 }]
    );
    assert_eq!(view_map(0x1000, 0x3000, 0x1000), vec![]);
    assert_eq!(
        view_map(0x1000, 0x800, 0x2000),
        vec![MemoryRange { base: 0x1000, size: 0 }]
    );
}
