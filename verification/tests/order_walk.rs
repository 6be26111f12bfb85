use scanflow::links::LinkMap;
use scanflow::order::{lower_bound, sort_distinct};
use scanflow::walk::{closest_entry, find_chains, signed_diff, walk_down_range};

#[test]
fn sort_puts_distinct_values_in_order() {
    assert_eq!(sort_distinct(&vec![5, 1, 4, 2, 3]), vec![1, 2, 3, 4, 5]);
    assert_eq!(sort_distinct(&vec![]), Vec::<u64>::new());
    assert_eq!(sort_distinct(&vec![7]), vec![7]);
    assert_eq!(sort_distinct(&vec![u64::MAX, 0]), vec![0, u64::MAX]);
    let many: Vec<u64> = (0..1000).map(|i| (i * 7919) % 1009).collect();
    let sorted = sort_distinct(&many);
    assert_eq!(sorted.len(), 1000);
    assert!(sorted.windows(2).all(|w| w[0] < w[1]));
}

#[test]
fn lower_bound_finds_the_first_not_below() {
    let v = [10u64, 20, 20, 30];
    assert_eq!(lower_bound(&v, 0), 0);
    assert_eq!(lower_bound(&v, 10), 0);
    assert_eq!(lower_bound(&v, 11), 1);
    assert_eq!(lower_bound(&v, 20), 1);
    assert_eq!(lower_bound(&v, 21), 3);
    assert_eq!(lower_bound(&v, 30), 3);
    assert_eq!(lower_bound(&v, 31), 4);
    assert_eq!(lower_bound(&[], 5), 0);
}

#[test]
fn closest_entry_prefers_the_higher_of_two() {
    let entries = [90u64, 98, 102, 110, 200];
    assert_eq!(closest_entry(&entries, 100, 80, 120), Some(102));
    assert_eq!(closest_entry(&entries, 99, 80, 120), Some(98));
    assert_eq!(closest_entry(&entries, 101, 80, 120), Some(102));
    assert_eq!(closest_entry(&entries, 100, 80, 101), Some(98));
    assert_eq!(closest_entry(&entries, 100, 103, 109), None);
    assert_eq!(closest_entry(&entries, 100, 110, 110), Some(110));
    assert_eq!(closest_entry(&entries, 150, 0, u64::MAX), Some(110));
    assert_eq!(closest_entry(&entries, 155, 0, u64::MAX), Some(200));
    assert_eq!(closest_entry(&entries, 154, 0, u64::MAX), Some(110));
    assert_eq!(closest_entry(&[], 100, 0, u64::MAX), None);
    assert_eq!(closest_entry(&[100, 100], 100, 100, 100), Some(100));
    assert_eq!(closest_entry(&[0xFF8, 0x1008], 0x1000, 0xFF0, 0x1010), Some(0x1008));
}

#[test]
fn of_two_equally_near_entry_points_the_higher_one_starts_the_chain() {
    let none = LinkMap::new();
    assert_eq!(
        find_chains(&none, (0x10, 0x10), 1, &[0x1000], &[0xFF8, 0x1008]),
        vec![(0x1000, vec![(0x1008, -8)])]
    );
}

#[test]
fn signed_diff_is_exact_until_it_saturates() {
    assert_eq!(signed_diff(10, 3), 7);
    assert_eq!(signed_diff(3, 10), -7);
    assert_eq!(signed_diff(5, 5), 0);
    assert_eq!(signed_diff(1 << 63, 1), i64::MAX);
    assert_eq!(signed_diff((1 << 63) - 1, 0), i64::MAX);
    assert_eq!(signed_diff(u64::MAX, 0), i64::MAX);
    assert_eq!(signed_diff(0, 1 << 63), i64::MIN);
    assert_eq!(signed_diff(0, (1 << 63) - 1), -i64::MAX);
    assert_eq!(signed_diff(0, u64::MAX), i64::MIN);
}

// 0x100 -> 0x1000, 0x200 -> 0x1008, 0x300 -> 0x100, 0x308 -> 0x200, 0x400 -> 0x300
fn links() -> LinkMap {
    LinkMap::from_edges(&vec![
        (0x100, 0x1000),
        (0x200, 0x1008),
        (0x300, 0x100),
        (0x308, 0x200),
        (0x400, 0x300),
    ])
}

#[test]
fn links_hold_edges_both_ways() {
    let l = links();
    assert_eq!(l.sources(), &vec![0x100, 0x200, 0x300, 0x308, 0x400]);
    assert_eq!(l.targets(), &vec![0x100, 0x200, 0x300, 0x1000, 0x1008]);
    assert_eq!(l.sources_of(0x1000), Some(&vec![0x100]));
    assert_eq!(l.sources_of(0x1001), None);
    assert_eq!(l.map().get(&0x308), Some(&0x200));
    for (k, v) in l.map().iter() {
        assert!(l.inverse_map()[v].contains(k));
    }
    for (t, sources) in l.inverse_map().iter() {
        assert!(!sources.is_empty());
        for s in sources {
            assert_eq!(l.map()[s], *t);
        }
    }
}

#[test]
fn of_two_edges_from_one_source_the_first_counts() {
    let l = LinkMap::from_edges(&vec![(5, 50), (3, 30), (5, 60), (4, 30), (3, 31)]);
    let forward: Vec<(u64, u64)> = l.map().iter().map(|(k, v)| (*k, *v)).collect();
    assert_eq!(forward, vec![(3, 30), (4, 30), (5, 50)]);
    assert_eq!(l.sources(), &vec![3, 4, 5]);
    assert_eq!(l.targets(), &vec![30, 50]);
    assert_eq!(l.sources_of(30), Some(&vec![3, 4]));
    assert_eq!(l.sources_of(60), None);
    let none = LinkMap::new();
    assert!(none.map().is_empty() && none.sources().is_empty() && none.targets().is_empty());
}

#[test]
fn search_goes_as_deep_as_allowed() {
    let l = links();
    // Depth 1: only an entry point near the target itself.
    assert_eq!(find_chains(&l, (0x10, 0x10), 1, &[0x1004], &[0x1000]), vec![(
        0x1004,
        vec![(0x1000, 4)]
    )]);
    assert_eq!(find_chains(&l, (0x10, 0x10), 1, &[0x1004], &[0x400]), vec![]);
    // Depth 3 reaches the pointers at 0x300 and 0x308.
    assert_eq!(
        find_chains(&l, (0x10, 0x10), 3, &[0x1004], &[0x300, 0x308]),
        vec![
            (0x1004, vec![(0x300, 0), (0x100, 0), (0x1000, 4)]),
            (0x1004, vec![(0x308, 0), (0x200, 0), (0x1008, -4)])
        ]
    );
    // With one entry point the second chain starts 8 below its pointer.
    assert_eq!(
        find_chains(&l, (0x10, 0x10), 3, &[0x1004], &[0x300]),
        vec![
            (0x1004, vec![(0x300, 0), (0x100, 0), (0x1000, 4)]),
            (0x1004, vec![(0x300, 8), (0x200, 0), (0x1008, -4)])
        ]
    );
    assert_eq!(
        find_chains(&l, (0x10, 0x10), 2, &[0x1004], &[0x300, 0x308]),
        vec![]
    );
    // Every target gets its own search, in the order given.
    assert_eq!(
        find_chains(&l, (0, 0), 1, &[0x1008, 0x1000, 0x1008], &[0x1000, 0x1008]),
        vec![
            (0x1008, vec![(0x1008, 0)]),
            (0x1000, vec![(0x1000, 0)]),
            (0x1008, vec![(0x1008, 0)])
        ]
    );
}

#[test]
fn ranges_reach_up_by_the_first_and_down_by_the_second() {
    let l = links();
    // Only upwards: the entry point must not be below the address.
    assert_eq!(find_chains(&l, (8, 0), 1, &[0x1004], &[0x1000, 0x1008]), vec![(
        0x1004,
        vec![(0x1008, -4)]
    )]);
    // Only downwards.
    assert_eq!(find_chains(&l, (0, 8), 1, &[0x1004], &[0x1000, 0x1008]), vec![(
        0x1004,
        vec![(0x1000, 4)]
    )]);
    // Equally near: the higher one.
    assert_eq!(find_chains(&l, (8, 8), 1, &[0x1004], &[0x1000, 0x1008]), vec![(
        0x1004,
        vec![(0x1008, -4)]
    )]);
    // The neighbourhood is cut at both ends of the address space.
    assert_eq!(find_chains(&l, (usize::MAX, usize::MAX), 1, &[5], &[0x1000]), vec![(
        5,
        vec![(0x1000, -0xFFB)]
    )]);
}

#[test]
fn a_loop_of_pointers_is_walked_down_to_the_depth() {
    // 0x10 -> 0x20 and 0x20 -> 0x10.
    let l = LinkMap::from_edges(&vec![(0x10, 0x20), (0x20, 0x10)]);
    let chains = find_chains(&l, (0, 0), 4, &[0x10], &[0x10, 0x20]);
    assert_eq!(
        chains,
        vec![
            (0x10, vec![(0x10, 0)]),
            (0x10, vec![(0x20, 0), (0x10, 0)]),
            (0x10, vec![(0x10, 0), (0x20, 0), (0x10, 0)]),
            (0x10, vec![(0x20, 0), (0x10, 0), (0x20, 0), (0x10, 0)])
        ]
    );
}

#[test]
fn walk_appends_and_leaves_the_stack() {
    let l = links();
    let mut out = vec![(1u64, vec![(2u64, 3i64)])];
    let mut tmp = vec![(0x1000u64, 4i64)];
    walk_down_range(&l, 0x100, (0, 0), 2, 2, &[0x100], &mut out, 0x1004, &mut tmp);
    assert_eq!(tmp, vec![(0x1000, 4)]);
    assert_eq!(
        out,
        vec![(1, vec![(2, 3)]), (0x1004, vec![(0x100, 0), (0x1000, 4)])]
    );
}
