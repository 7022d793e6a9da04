use clustering::bitmask::BitMaskingTable;
use clustering::popcount::bit_distance;

fn masks(table: &BitMaskingTable) -> Vec<u32> {
    (0..table.len()).map(|i| table.get_mask(i)).collect()
}

#[test]
fn one_bit_masks_of_three() {
    let b = BitMaskingTable::new_one_bit(3);
    assert_eq!(b.len(), 3);
    assert_eq!(masks(&b), vec![1, 2, 4]);
}

#[test]
fn two_bit_masks_of_three() {
    let b = BitMaskingTable::new_two_bit(3);
    assert_eq!(b.len(), 3);
    assert_eq!(masks(&b), vec![3, 5, 6]);
}

#[test]
fn out_of_range_mask_is_zero() {
    let one = BitMaskingTable::new_one_bit(5);
    let two = BitMaskingTable::new_two_bit(5);
    assert_eq!(one.get_mask(5), 0);
    assert_eq!(one.get_mask(usize::MAX), 0);
    assert_eq!(two.get_mask(10), 0);
    assert_eq!(two.get_mask(usize::MAX), 0);
}

#[test]
fn empty_and_narrow_tables() {
    assert_eq!(BitMaskingTable::new_one_bit(0).len(), 0);
    assert_eq!(BitMaskingTable::new_two_bit(0).len(), 0);
    assert_eq!(BitMaskingTable::new_two_bit(1).len(), 0);
    assert_eq!(masks(&BitMaskingTable::new_two_bit(2)), vec![3]);
    assert_eq!(BitMaskingTable::new_one_bit(0).get_mask(0), 0);
}

#[test]
fn table_sizes() {
    for n in 0..=32u32 {
        assert_eq!(BitMaskingTable::new_one_bit(n).len(), n as usize);
        let pairs = (n as usize) * (n as usize).saturating_sub(1) / 2;
        assert_eq!(BitMaskingTable::new_two_bit(n).len(), pairs);
    }
}

#[test]
fn full_width_tables() {
    let one = BitMaskingTable::new_one_bit(32);
    assert_eq!(one.get_mask(31), 0x8000_0000);
    for i in 0..32 {
        assert_eq!(one.get_mask(i).count_ones(), 1);
        assert_eq!(one.get_mask(i), 1u32 << i);
    }
    let two = BitMaskingTable::new_two_bit(32);
    assert_eq!(two.len(), 496);
    assert_eq!(two.get_mask(0), 3);
    assert_eq!(two.get_mask(30), 0x8000_0001);
    assert_eq!(two.get_mask(31), 6);
    assert_eq!(two.get_mask(495), 0xC000_0000);
    for i in 0..two.len() {
        assert_eq!(two.get_mask(i).count_ones(), 2);
    }
}

#[test]
fn positions_past_the_top_bit_are_empty() {
    let one = BitMaskingTable::new_one_bit(34);
    assert_eq!(one.len(), 34);
    assert_eq!(one.get_mask(31), 0x8000_0000);
    assert_eq!(one.get_mask(32), 0);
    assert_eq!(one.get_mask(33), 0);
    let two = BitMaskingTable::new_two_bit(33);
    assert_eq!(two.len(), 528);
    // The pair of positions 0 and 32 has only position 0 inside the code.
    assert_eq!(two.get_mask(31), 1);
}

#[test]
fn two_bit_masks_come_in_position_order() {
    let n: u32 = 6;
    let table = BitMaskingTable::new_two_bit(n);
    let mut expected: Vec<u32> = Vec::new();
    for low in 0..n {
        for high in (low + 1)..n {
            expected.push((1 << low) | (1 << high));
        }
    }
    assert_eq!(masks(&table), expected);
}

#[test]
fn bit_distance_counts_differing_bits() {
    assert_eq!(bit_distance(0, 0), 0);
    assert_eq!(bit_distance(0b1010, 0b0101), 4);
    assert_eq!(bit_distance(7, 0), 3);
    assert_eq!(bit_distance(0xFFFF_FFFF, 0), 32);
    assert_eq!(bit_distance(0x8000_0000, 0x0000_0001), 2);
    assert_eq!(bit_distance(12, 10), bit_distance(10, 12));
}
