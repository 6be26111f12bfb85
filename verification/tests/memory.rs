use scanflow::error::Error;
use scanflow::memory::{MemoryImage, MemoryRange};

fn image(regions: &[(u64, usize)]) -> MemoryImage {
    let mut mem = MemoryImage::new();
    for (base, len) in regions {
        let bytes: Vec<u8> = (0..*len).map(|i| (*base as usize + i) as u8).collect();
        assert_eq!(mem.map_region(*base, bytes), Ok(()));
    }
    mem
}

#[test]
fn regions_must_not_overlap() {
    let mut mem = image(&[(0x1000, 0x100), (0x3000, 0x100)]);
    assert_eq!(mem.map_region(0x10FF, vec![1]), Err(Error::InvalidArgument));
    assert_eq!(mem.map_region(0x0FFF, vec![1, 2]), Err(Error::InvalidArgument));
    assert_eq!(mem.map_region(0x2F00, vec![0; 0x101]), Err(Error::InvalidArgument));
    assert_eq!(mem.map_region(0x2000, vec![]), Err(Error::InvalidArgument));
    assert_eq!(mem.map_region(u64::MAX, vec![1]), Err(Error::InvalidArgument));
    assert_eq!(mem.map_region(u64::MAX - 1, vec![1]), Ok(()));
    // Touching an old region is no overlap.
    assert_eq!(mem.map_region(0x1100, vec![7; 0x10]), Ok(()));
    assert_eq!(mem.map_region(0x2FF0, vec![8; 0x10]), Ok(()));
    let mut buf = vec![0u8; 4];
    assert_eq!(mem.read_raw_into(0x10FE, &mut buf), Ok(4));
    assert_eq!(buf, vec![0xFE, 0xFF, 7, 7]);
}

#[test]
fn reading_stops_at_the_first_gap() {
    let mem = image(&[(0x1000, 0x10), (0x1010, 0x10), (0x1030, 0x10)]);
    let mut buf = vec![0xAAu8; 0x30];
    assert_eq!(mem.read_raw_into(0x1008, &mut buf), Ok(0x18));
    let expected: Vec<u8> = (0x08..0x20).collect();
    assert_eq!(&buf[..0x18], &expected[..]);
    assert!(buf[0x18..].iter().all(|b| *b == 0xAA));

    let mut buf = vec![0xAAu8; 8];
    assert_eq!(mem.read_raw_into(0x1020, &mut buf), Ok(0));
    assert_eq!(buf, vec![0xAA; 8]);
    assert_eq!(mem.read_raw_into(0x0FFF, &mut buf), Ok(0));
    assert_eq!(mem.read_raw_into(0x1038, &mut buf), Ok(8));
    assert_eq!(mem.read_raw_into(0x1039, &mut buf), Ok(7));
    let mut none: Vec<u8> = vec![];
    assert_eq!(mem.read_raw_into(0x1000, &mut none), Ok(0));
}

#[test]
fn reading_at_the_top_of_the_address_space() {
    let mut mem = MemoryImage::new();
    assert_eq!(mem.map_region(u64::MAX - 4, vec![1, 2, 3, 4]), Ok(()));
    let mut buf = vec![0u8; 8];
    assert_eq!(mem.read_raw_into(u64::MAX - 2, &mut buf), Ok(2));
    assert_eq!(&buf[..2], &[3, 4]);
    assert_eq!(mem.read_raw_into(u64::MAX, &mut buf), Ok(0));
}

#[test]
fn faulty_spans_fail_reads_and_writes() {
    let mut mem = image(&[(0x1000, 0x100)]);
    mem.mark_faulty(MemoryRange { base: 0x1080, size: 2 });
    mem.mark_faulty(MemoryRange { base: 0x5000, size: 0 });
    let mut buf = vec![0u8; 0x10];
    assert_eq!(mem.read_raw_into(0x1000, &mut buf), Ok(0x10));
    assert_eq!(mem.read_raw_into(0x1071, &mut buf), Err(Error::MemoryFatal));
    assert_eq!(mem.read_raw_into(0x1070, &mut buf), Ok(0x10));
    assert_eq!(mem.read_raw_into(0x1081, &mut buf), Err(Error::MemoryFatal));
    assert_eq!(mem.read_raw_into(0x1082, &mut buf), Ok(0x10));
    assert!(mem.fault_hits(0x1081, 1));
    assert!(!mem.fault_hits(0x1082, 1));
    assert!(!mem.fault_hits(0x1081, 0));
    assert!(!mem.fault_hits(0x4FFF, 0x10));
    assert_eq!(mem.write_raw(0x107F, &[1, 2]), Err(Error::MemoryFatal));
    assert_eq!(mem.read_raw_into(0x1070, &mut buf), Ok(0x10));
    assert_eq!(buf[0xF], 0x7F);
}

#[test]
fn writes_are_all_or_nothing() {
    let mut mem = image(&[(0x1000, 0x10), (0x1010, 0x10)]);
    assert_eq!(mem.write_raw(0x100E, &[1, 2, 3, 4]), Ok(()));
    let mut buf = vec![0u8; 6];
    assert_eq!(mem.read_raw_into(0x100D, &mut buf), Ok(6));
    assert_eq!(buf, vec![0x0D, 1, 2, 3, 4, 0x12]);
    assert_eq!(mem.write_raw(0x101E, &[9, 9, 9]), Err(Error::MemoryData));
    assert_eq!(mem.read_raw_into(0x101E, &mut buf), Ok(2));
    assert_eq!(&buf[..2], &[0x1E, 0x1F]);
    assert_eq!(mem.write_raw(0x3000, &[]), Ok(()));
}

#[test]
fn map_bridges_small_gaps_only() {
    let mem = image(&[(0x1000, 0x100), (0x1200, 0x100), (0x2000, 0x100)]);
    assert_eq!(
        mem.mapped_mem_range_vec(0, 0, u64::MAX),
        vec![
            MemoryRange { base: 0x1000, size: 0x100 },
            MemoryRange { base: 0x1200, size: 0x100 },
            MemoryRange { base: 0x2000, size: 0x100 }
        ]
    );
    assert_eq!(
        mem.mapped_mem_range_vec(0x100, 0, u64::MAX),
        vec![
            MemoryRange { base: 0x1000, size: 0x300 },
            MemoryRange { base: 0x2000, size: 0x100 }
        ]
    );
    assert_eq!(
        mem.mapped_mem_range_vec(0xFF, 0, u64::MAX),
        vec![
            MemoryRange { base: 0x1000, size: 0x100 },
            MemoryRange { base: 0x1200, size: 0x100 },
            MemoryRange { base: 0x2000, size: 0x100 }
        ]
    );
    assert_eq!(
        mem.mapped_mem_range_vec(0x1000, 0, u64::MAX),
        vec![MemoryRange { base: 0x1000, size: 0x1100 }]
    );
}

#[test]
fn map_is_cut_to_the_bounds() {
    let mem = image(&[(0x1000, 0x100), (0x1200, 0x100), (0x2000, 0x100)]);
    assert_eq!(
        mem.mapped_mem_range_vec(0x1000, 0x1080, 0x2010),
        vec![MemoryRange { base: 0x1080, size: 0xF90 }]
    );
    assert_eq!(
        mem.mapped_mem_range_vec(0, 0x1100, 0x1200),
        Vec::<MemoryRange>::new()
    );
    assert_eq!(
        mem.mapped_mem_range_vec(0, 0x10FF, 0x1201),
        vec![
            MemoryRange { base: 0x10FF, size: 1 },
            MemoryRange { base: 0x1200, size: 1 }
        ]
    );
    assert_eq!(
        MemoryImage::new().mapped_mem_range_vec(16, 0, u64::MAX),
        Vec::<MemoryRange>::new()
    );
    let adjacent = image(&[(0x1000, 0x10), (0x1010, 0x10)]);
    assert_eq!(
        adjacent.mapped_mem_range_vec(0, 0, u64::MAX),
        vec![MemoryRange { base: 0x1000, size: 0x20 }]
    );
}

#[test]
fn range_holds_its_addresses() {
    let r = MemoryRange { base: 0x10, size: 4 };
    assert!(!r.has(0xF));
    assert!(r.has(0x10));
    assert!(r.has(0x13));
    assert!(!r.has(0x14));
    let top = MemoryRange { base: u64::MAX - 1, size: u64::MAX };
    assert!(top.has(u64::MAX));
    assert!(!MemoryRange { base: 5, size: 0 }.has(5));
}

#[test]
fn next_readable_address() {
    let mem = image(&[(0x1000, 0x10), (0x1010, 0x10), (0x1030, 0x10)]);
    assert_eq!(mem.next_readable(0), Some(0x1000));
    assert_eq!(mem.next_readable(0x1000), Some(0x1000));
    assert_eq!(mem.next_readable(0x101F), Some(0x101F));
    assert_eq!(mem.next_readable(0x1020), Some(0x1030));
    assert_eq!(mem.next_readable(0x103F), Some(0x103F));
    assert_eq!(mem.next_readable(0x1040), None);
    assert_eq!(MemoryImage::new().next_readable(0), None);
}

#[test]
fn reading_less_than_the_buffer_holds() {
    let mem = image(&[(0x1000, 0x10)]);
    let mut buf = vec![0xAAu8; 8];
    assert_eq!(mem.read_prefix(0x1004, &mut buf, 3), Ok(3));
    assert_eq!(buf, vec![4, 5, 6, 0xAA, 0xAA, 0xAA, 0xAA, 0xAA]);
    assert_eq!(mem.read_prefix(0x100E, &mut buf, 8), Ok(2));
    assert_eq!(buf, vec![0xE, 0xF, 6, 0xAA, 0xAA, 0xAA, 0xAA, 0xAA]);
    assert_eq!(mem.read_prefix(0x1000, &mut buf, 0), Ok(0));
}

#[test]
fn faults_in_the_extent_of_a_span() {
    let mut mem = image(&[(0x1000, 0x100)]);
    mem.mark_faulty(MemoryRange { base: 0x1103, size: 1 });
    let span = MemoryRange { base: 0x1000, size: 0x100 };
    assert!(!mem.fault_in_extent(span, 1));
    assert!(!mem.fault_in_extent(span, 4));
    assert!(mem.fault_in_extent(span, 5));
    assert!(!mem.fault_in_extent(MemoryRange { base: 0x1104, size: 8 }, 8));
    assert!(mem.fault_in_extent(MemoryRange { base: 0, size: u64::MAX }, usize::MAX));
    mem.mark_faulty(MemoryRange { base: u64::MAX, size: 1 });
    assert!(mem.fault_in_extent(MemoryRange { base: 0x2000, size: u64::MAX - 0x2000 }, 2));
    assert!(!mem.fault_in_extent(MemoryRange { base: 0x2000, size: u64::MAX - 0x2000 }, 1));
}
