use scanflow::memory::MemoryImage;
use scanflow::pointer_map::PointerMap;
use scanflow::walk::signed_diff;

fn two_regions() -> MemoryImage {
    let mut mem = MemoryImage::new();
    assert!(mem.map_region(0x10000, vec![0u8; 0x1000]).is_ok());
    assert!(mem.map_region(0x20000, vec![0u8; 0x1000]).is_ok());
    assert!(mem.write_raw(0x10100, &0x20008u64.to_le_bytes()).is_ok());
    assert!(mem.write_raw(0x20800, &0x10100u64.to_le_bytes()).is_ok());
    mem
}

#[test]
fn map_holds_both_pointers_both_ways() {
    let mem = two_regions();
    let mut map = PointerMap::new();
    assert_eq!(map.create_map(&mem, 8), Ok(()));
    let forward: Vec<(u64, u64)> = map.map().iter().map(|(k, v)| (*k, *v)).collect();
    assert_eq!(forward, vec![(0x10100, 0x20008), (0x20800, 0x10100)]);
    let inverse: Vec<(u64, Vec<u64>)> =
        map.inverse_map().iter().map(|(k, v)| (*k, v.clone())).collect();
    assert_eq!(
        inverse,
        vec![(0x10100, vec![0x20800]), (0x20008, vec![0x10100])]
    );
    assert_eq!(map.pointers(), &vec![0x10100u64, 0x20800]);
}

#[test]
fn chain_leads_from_entry_to_target() {
    let mem = two_regions();
    let mut map = PointerMap::new();
    assert_eq!(map.create_map(&mem, 8), Ok(()));
    let chains = map.find_matches_addrs((0x100, 0x100), 3, &[0x20008], &[0x20800]);
    assert_eq!(
        chains,
        vec![(0x20008u64, vec![(0x20800u64, 0i64), (0x10100, 0), (0x20008, 0)])]
    );
}

#[test]
fn signed_diff_is_exact_and_saturates() {
    assert_eq!(signed_diff(10, 3), 7);
    assert_eq!(signed_diff(3, 10), -7);
    assert_eq!(signed_diff(u64::MAX, 0), i64::MAX);
    assert_eq!(signed_diff(0, u64::MAX), i64::MIN);
    assert_eq!(signed_diff(5, 5), 0);
}

#[test]
fn the_higher_of_two_equally_near_entry_points_wins() {
    let map = PointerMap::default();
    assert_eq!(
        map.find_matches_addrs((0x10, 0x10), 1, &[0x1000], &[0xFF8, 0x1008]),
        vec![(0x1000u64, vec![(0x1008u64, -8i64)])]
    );
}
