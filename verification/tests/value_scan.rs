use scanflow::error::Error;
use scanflow::memory::{MemoryImage, MemoryRange};
use scanflow::value_scanner::ValueScanner;

fn image_with(base: u64, len: usize, writes: &[(u64, &[u8])]) -> MemoryImage {
    let mut mem = MemoryImage::new();
    assert!(mem.map_region(base, vec![0u8; len]).is_ok());
    for (addr, bytes) in writes {
        assert!(mem.write_raw(*addr, bytes).is_ok());
    }
    mem
}

#[test]
fn scan_finds_both_and_refines_to_one() {
    let pattern = 0xDEADBEEFu32.to_le_bytes();
    let mut mem = image_with(0x1000, 0x1000, &[(0x1234, &pattern), (0x1F00, &pattern)]);
    let mut scanner = ValueScanner::new();
    assert_eq!(scanner.scan_for(&mem, &pattern), Ok(()));
    assert_eq!(scanner.matches(), &vec![0x1234u64, 0x1F00]);
    assert_eq!(
        scanner.mem_map(),
        &vec![MemoryRange { base: 0x1000, size: 0x1000 }]
    );

    assert!(mem.write_raw(0x1F00, &0xCAFEBABEu32.to_le_bytes()).is_ok());
    assert_eq!(scanner.scan_for(&mem, &pattern), Ok(()));
    assert_eq!(scanner.matches(), &vec![0x1234u64]);
}

#[test]
fn empty_pattern_refines_to_nothing() {
    let pattern = 0xDEADBEEFu32.to_le_bytes();
    let mem = image_with(0x1000, 0x1000, &[(0x1234, &pattern), (0x1F00, &pattern)]);
    let mut scanner = ValueScanner::new();
    assert_eq!(scanner.scan_for(&mem, &pattern), Ok(()));
    assert_eq!(scanner.scan_for(&mem, &[]), Ok(()));
    assert!(scanner.matches().is_empty());
}

#[test]
fn faulty_read_fails_the_scan() {
    let pattern = [1u8, 2, 3];
    let mut mem = image_with(0x1000, 0x2000, &[(0x1800, &pattern)]);
    mem.mark_faulty(MemoryRange { base: 0x2100, size: 1 });
    let mut scanner = ValueScanner::new();
    assert_eq!(scanner.scan_for(&mem, &pattern), Err(Error::MemoryFatal));
    assert!(!scanner.scanned());
    assert!(scanner.matches().is_empty());
}
