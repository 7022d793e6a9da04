use clustering::bitmask::BitMaskingTable;
use clustering::hammingcluster::{HammingClusteringInfo, VertexGroup};

fn setup_basic(num: u32) -> HammingClusteringInfo {
    let num_bits = (num as f64).log(2.0).ceil() as u32;
    let mut c = HammingClusteringInfo::new(num_bits);
    for i in 0..num {
        c.add_vertex(i + 1, i);
    }
    println!("Initial Setup {:#?}", c);
    c
}

fn setup_codes(num_bits: u32, codes: &[u32]) -> HammingClusteringInfo {
    let mut c = HammingClusteringInfo::new(num_bits);
    let mut id: u32 = 0;
    for code in codes {
        id += 1;
        c.add_vertex(id, *code);
    }
    c
}

#[test]
fn initial_setup_test() {
    let mut c = setup_basic(3);
    assert_eq!(c.sizes(), (3, 3, 3));
    assert_eq!(c.find_group(1), Some(0));
    assert_eq!(c.find_group(2), Some(1));
    assert_eq!(c.find_group(3), Some(2));
    assert_eq!(c.code_same_group(0, 1), false);
    assert_eq!(c.code_same_group(0, 2), false);
    assert_eq!(c.code_same_group(1, 2), false);
    assert_eq!(c.get_rank(0), 1);
    assert_eq!(c.get_rank(1), 1);
    assert_eq!(c.get_rank(2), 1);
    c.incr_rank(2);
    assert_eq!(c.get_rank(2), 2);
}

#[test]
fn vertex_test() {
    let mut v = VertexGroup::new(1, 0xAAA);
    assert_eq!(v.get_rank(), 1);
    v.update_rank(3);
    assert_eq!(v.get_rank(), 3);
}

#[test]
fn union_test() {
    let mut c = setup_basic(3);
    c.union_by_code(0, 1);
    println!("After Union {:#?}", c);
    assert_eq!(c.find_grouping(1), Some(0));
    assert_eq!(c.find_grouping(0), Some(0));
    println!("group {:#?} {:#?}", c.find_grouping(0), c.find_grouping(1));
    assert_eq!(c.code_same_group(0, 1), true);
    assert_eq!(c.get_rank(0), 2);
    assert_eq!(c.sizes(), (3, 3, 2));
}

#[test]
fn bitmask_one_bit_table_test() {
    let b = BitMaskingTable::new_one_bit(3);
    assert_eq!(b.get_mask(0), 0b1);
    assert_eq!(b.get_mask(1), 0b10);
    assert_eq!(b.get_mask(2), 0b100);
    assert_eq!(b.get_mask(3), 0);
}

#[test]
fn bitmask_two_bit_table_test() {
    let b = BitMaskingTable::new_two_bit(3);
    assert_eq!(b.get_mask(0), 0b011);
    assert_eq!(b.get_mask(1), 0b101);
    assert_eq!(b.get_mask(2), 0b110);
    assert_eq!(b.get_mask(3), 0);
    let b = BitMaskingTable::new_two_bit(4);
    assert_eq!(b.get_mask(0), 0b0011);
    assert_eq!(b.get_mask(1), 0b0101);
    assert_eq!(b.get_mask(2), 0b1001);
    assert_eq!(b.get_mask(3), 0b0110);
    assert_eq!(b.get_mask(4), 0b1010);
    assert_eq!(b.get_mask(5), 0b1100);
    assert_eq!(b.get_mask(6), 0);
}

#[test]
fn vertex_spacing_test() {
    let c = setup_basic(8);
    assert_eq!(c.vertex_spacing(1, 2), Some(1));
    assert_eq!(c.vertex_spacing(1, 4), Some(2));
    assert_eq!(c.vertex_spacing(8, 1), Some(3));
}

#[test]
fn cluster_spacing_test() {
    let mut c = setup_basic(8);
    println!("group for v8 {:#?}", c.find_group(8));
    assert_eq!(c.vertex_cluster_spacing(1, 8), Some((3, 3)));
    c.union_by_vertex(1, 8);
    c.union_by_vertex(1, 2);
    println!("Final {:#?}", c);
    assert_eq!(c.vertex_cluster_spacing(1, 8), Some((1, 3)));
}

#[test]
fn cluster_test() {
    let mut c = setup_basic(16);
    c.do_cluster(3);
    println!("Final {:#?}", c);
    assert_eq!(c.sizes(), (16, 16, 4));
}

#[test]
fn find_of_an_unregistered_code_is_not_the_root_of_code_zero() {
    let mut c = HammingClusteringInfo::new(4);
    c.add_vertex(1, 0);
    assert_eq!(c.find_grouping(0), Some(0));
    assert_eq!(c.find_grouping(3), None);
    assert_eq!(c.code_same_group(3, 0), false);
    assert_eq!(c.sizes(), (1, 1, 1));
}

#[test]
fn hamming_cluster_spacing_test() {
    let c = setup_basic(16);
    assert_eq!(c.hamming_cluster_spacing(0, 4), Some((1, 1)))
}

#[test]
fn sixteen_codes_threshold_three() {
    // No group may hold two codes that differ in three bits or more, so the
    // sixteen codes of four bits end up in four groups.
    let mut c = setup_basic(16);
    c.do_cluster(3);
    assert_eq!(c.sizes(), (16, 16, 4));
    assert_eq!(c.groups(), 4);
    assert_eq!(c.find_grouping(8), Some(0));
    assert_eq!(c.find_grouping(15), Some(3));
    assert_eq!(c.find_grouping(9), Some(5));
    assert_eq!(c.find_grouping(10), Some(6));
    let records = c.summary();
    assert_eq!(records.len(), 16);
    assert_eq!(records[0].orig_hamming_code, 0);
    assert_eq!(records[0].group_id, 0);
    assert_eq!(records[0].rank, 2);
    assert_eq!(records[0].vertex_list, vec![1, 2, 3, 5, 9]);
    assert_eq!(records[3].vertex_list, vec![4, 8, 12, 16]);
    assert_eq!(records[5].vertex_list, vec![6, 14, 13, 10]);
    assert_eq!(records[6].vertex_list, vec![7, 15, 11]);
    assert_eq!(records[1].orig_hamming_code, 1);
    assert_eq!(records[1].group_id, 0);
    assert_eq!(records[1].rank, 1);
    assert!(records[1].vertex_list.is_empty());
}

#[test]
fn sixteen_codes_by_threshold() {
    let expected: [usize; 6] = [16, 16, 8, 4, 2, 1];
    for (max_dist, groups) in expected.iter().enumerate() {
        let mut c = setup_basic(16);
        c.do_cluster(max_dist as u32);
        assert_eq!(c.groups(), *groups);
    }
}

#[test]
fn five_codes_two_groups() {
    let mut c = setup_codes(5, &[0b00000, 0b11111, 0b00001, 0b11100, 0b00010]);
    assert_eq!(c.sizes(), (5, 5, 5));
    c.do_cluster(3);
    assert_eq!(c.groups(), 2);
    assert_eq!(c.sizes(), (5, 5, 2));
    assert_eq!(c.vertex_same_group(1, 3), true);
    assert_eq!(c.vertex_same_group(1, 5), true);
    assert_eq!(c.vertex_same_group(2, 4), true);
    assert_eq!(c.vertex_same_group(1, 2), false);
    assert_eq!(c.vertex_cluster_spacing(1, 2), Some((3, 5)));
}

#[test]
fn second_pass_changes_nothing() {
    for max_dist in 0..6 {
        let mut c = setup_basic(16);
        c.do_cluster(max_dist);
        let groups = c.groups();
        let before: Vec<(u32, u32, u32, Vec<u32>)> = c
            .summary()
            .into_iter()
            .map(|g| (g.orig_hamming_code, g.group_id, g.rank, g.vertex_list))
            .collect();
        c.do_cluster(max_dist);
        let after: Vec<(u32, u32, u32, Vec<u32>)> = c
            .summary()
            .into_iter()
            .map(|g| (g.orig_hamming_code, g.group_id, g.rank, g.vertex_list))
            .collect();
        assert_eq!(c.groups(), groups);
        assert_eq!(before, after);
    }
}

#[test]
fn duplicate_vertex_is_ignored() {
    let mut c = HammingClusteringInfo::new(4);
    c.add_vertex(7, 0b0101);
    c.add_vertex(7, 0b1111);
    assert_eq!(c.sizes(), (1, 1, 1));
    assert_eq!(c.find_group(7), Some(0b0101));
    assert_eq!(c.find_grouping(0b1111), None);
    assert_eq!(c.hamming_cluster_spacing(0b0101, 0b1111), None);
}

#[test]
fn vertices_of_one_code_share_a_group() {
    let mut c = HammingClusteringInfo::new(4);
    c.add_vertex(1, 0b0101);
    c.add_vertex(2, 0b0101);
    c.add_vertex(3, 0b0110);
    assert_eq!(c.sizes(), (3, 2, 2));
    assert_eq!(c.vertex_spacing(1, 2), Some(0));
    assert_eq!(c.vertex_same_group(1, 2), true);
    assert_eq!(c.hamming_cluster_spacing(0b0101, 0b0101), Some((0, 0)));
    assert_eq!(c.hamming_cluster_spacing(0b0101, 0b0110), Some((2, 2)));
    let records = c.summary();
    assert_eq!(records.len(), 2);
    assert_eq!(records[0].orig_hamming_code, 0b0101);
    assert_eq!(records[0].vertex_list, vec![1, 2]);
    assert_eq!(records[1].orig_hamming_code, 0b0110);
    assert_eq!(records[1].vertex_list, vec![3]);
}

#[test]
fn vertex_added_to_a_merged_code_joins_its_group() {
    let mut c = setup_basic(2);
    c.union_by_code(0, 1);
    c.add_vertex(9, 1);
    assert_eq!(c.sizes(), (3, 2, 1));
    assert_eq!(c.find_group(9), Some(0));
    let records = c.summary();
    assert_eq!(records[0].vertex_list, vec![1, 2, 9]);
    assert!(records[1].vertex_list.is_empty());
}

#[test]
fn unregistered_lookups_report_absence() {
    let mut c = setup_basic(4);
    assert_eq!(c.find_group(99), None);
    assert_eq!(c.find_grouping(99), None);
    assert_eq!(c.find_grouping(0), Some(0));
    assert_eq!(c.vertex_spacing(1, 99), None);
    assert_eq!(c.vertex_spacing(99, 1), None);
    assert_eq!(c.vertex_cluster_spacing(1, 99), None);
    assert_eq!(c.hamming_cluster_spacing(0, 99), None);
    assert_eq!(c.vertex_same_group(98, 99), false);
    assert_eq!(c.vertex_same_group(99, 99), false);
    assert_eq!(c.vertex_same_group(1, 99), false);
    assert_eq!(c.code_same_group(99, 0), false);
    assert_eq!(c.code_same_group(0, 99), false);
    assert_eq!(c.code_same_group(99, 1), false);
    assert_eq!(c.code_same_group(99, 99), false);
    assert_eq!(c.code_same_group(0, 0), true);
    c.union_by_vertex(1, 99);
    // Asking registers nothing and unites nothing.
    assert_eq!(c.sizes(), (4, 4, 4));
}

#[test]
fn spacing_counts_differing_bits() {
    let c = setup_codes(32, &[0, 0xFFFF_FFFF, 0x8000_0001, 0x0F0F_0F0F]);
    assert_eq!(c.vertex_spacing(1, 2), Some(32));
    assert_eq!(c.vertex_spacing(1, 3), Some(2));
    assert_eq!(c.vertex_spacing(2, 3), Some(30));
    assert_eq!(c.vertex_spacing(4, 1), Some(16));
    assert_eq!(c.vertex_spacing(4, 4), Some(0));
}

#[test]
fn spacing_of_groups_without_a_pair() {
    let mut c = setup_basic(2);
    c.union_by_code(0, 1);
    // Code 1 lists nothing any more: there is no pair to measure.
    assert_eq!(c.hamming_cluster_spacing(0, 1), Some((u32::MAX, 0)));
    assert_eq!(c.hamming_cluster_spacing(0, 0), Some((1, 1)));
}

#[test]
fn union_by_rank_in_groups_of_codes() {
    let mut c = setup_basic(4);
    c.union_by_code(2, 3);
    assert_eq!((c.get_rank(2), c.get_rank(3)), (2, 1));
    // The root of lower rank goes under the root of higher rank.
    c.union_by_code(0, 3);
    assert_eq!(c.find_grouping(0), Some(2));
    assert_eq!((c.get_rank(0), c.get_rank(2)), (1, 2));
    assert_eq!(c.groups(), 2);
    // A union inside one group changes nothing.
    c.union_by_code(3, 0);
    assert_eq!(c.groups(), 2);
    assert_eq!((c.get_rank(0), c.get_rank(2), c.get_rank(3)), (1, 2, 1));
    let records = c.summary();
    assert_eq!(records[2].vertex_list, vec![3, 4, 1]);
}

#[test]
fn vertex_group_record() {
    let mut v = VertexGroup::new(4, 0b1010);
    assert_eq!(v.orig_hamming_code, 0b1010);
    assert_eq!(v.group_id, 0b1010);
    assert_eq!(v.vertex_list, vec![4]);
    v.add(6);
    v.add(5);
    assert_eq!(v.vertex_list, vec![4, 6, 5]);
    assert_eq!(v.get_rank(), 1);
}

#[test]
fn groups_stay_tight() {
    for max_dist in 1..6u32 {
        let mut c = setup_basic(32);
        c.do_cluster(max_dist);
        for v1 in 1..=32 {
            for v2 in 1..=32 {
                if v1 != v2 && c.vertex_same_group(v1, v2) {
                    assert!(c.vertex_spacing(v1, v2).unwrap() < max_dist);
                }
            }
        }
    }
}

#[test]
fn neighbours_are_settled_after_a_pass() {
    let mut c = setup_codes(6, &[0b000000, 0b000011, 0b001111, 0b111111, 0b110000, 0b000001]);
    c.do_cluster(3);
    let codes: Vec<u32> = c.summary().iter().map(|g| g.orig_hamming_code).collect();
    for a in &codes {
        for b in &codes {
            let differing = (a ^ b).count_ones();
            if (differing == 1 || differing == 2) && !c.code_same_group(*a, *b) {
                let ra = c.find_grouping(*a).unwrap();
                let rb = c.find_grouping(*b).unwrap();
                let (_, max) = c.hamming_cluster_spacing(ra, rb).unwrap();
                assert!(max >= 3);
            }
        }
    }
    assert_eq!(c.groups(), 3);
}
