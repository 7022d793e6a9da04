//! Tables of the XOR masks that flip one bit or two bits of a code.

use vstd::prelude::*;

verus! {

/// The mask with only bit `i` set; zero when `i` is past the top bit of a
/// 32-bit code.
pub open spec fn bit(i: nat) -> u32 {
    if i < 32 {
        1u32 << (i as u32)
    } else {
        0u32
    }
}

/// The one-bit masks for positions `0..n`, in ascending position order.
pub open spec fn one_bit_masks(n: nat) -> Seq<u32> {
    Seq::new(n, |i: int| bit(i as nat))
}

/// The two-bit masks whose lower bit is at position `i`, by ascending upper
/// position, for a code that is `n` bits wide.
pub open spec fn two_bit_row(n: nat, i: nat) -> Seq<u32> {
    Seq::new((n - i - 1) as nat, |t: int| bit(i) | bit((i + 1 + t) as nat))
}

/// The two-bit masks whose lower bit is below `rows`: row after row, by
/// ascending lower position.
pub open spec fn two_bit_rows(n: nat, rows: nat) -> Seq<u32>
    decreases rows,
{
    if rows == 0 {
        Seq::empty()
    } else {
        two_bit_rows(n, (rows - 1) as nat) + two_bit_row(n, (rows - 1) as nat)
    }
}

/// Every pair of bit positions below `n`, lower position first.
pub open spec fn two_bit_masks(n: nat) -> Seq<u32> {
    two_bit_rows(n, n)
}

/// Shifting the mask of position `i` left by one gives the mask of `i + 1`.
proof fn lemma_bit_step(i: nat)
    ensures
        bit(i) << 1u32 == bit(i + 1),
{
    if i < 31 {
        let s: u32 = i as u32;
        assert((1u32 << s) << 1u32 == 1u32 << ((s + 1) as u32)) by (bit_vector)
            requires
                s < 31,
        ;
    } else if i == 31 {
        assert((1u32 << 31u32) << 1u32 == 0u32) by (bit_vector);
    } else {
        assert(0u32 << 1u32 == 0u32) by (bit_vector);
    }
}

/// The rows below `rows` hold `rows * n - rows * (rows + 1) / 2` masks.
pub proof fn lemma_two_bit_rows_len(n: nat, rows: nat)
    requires
        rows <= n,
    ensures
        2 * two_bit_rows(n, rows).len() == rows * (2 * n - rows - 1),
    decreases rows,
{
    if rows == 0 {
        assert(rows * (2 * n - rows - 1) == 0) by (nonlinear_arith)
            requires
                rows == 0,
        ;
    } else {
        let r = (rows - 1) as nat;
        lemma_two_bit_rows_len(n, r);
        assert(two_bit_rows(n, rows).len() == two_bit_rows(n, r).len() + (n - r - 1));
        assert(rows * (2 * n - rows - 1) == r * (2 * n - r - 1) + 2 * (n - r - 1))
            by (nonlinear_arith)
            requires
                r + 1 == rows,
        ;
    }
}

/// A table of XOR masks, read by index.
#[derive(Debug)]
pub struct BitMaskingTable {
    bitmasks: Vec<u32>,
}

impl View for BitMaskingTable {
    type V = Seq<u32>;

    closed spec fn view(&self) -> Seq<u32> {
        self.bitmasks@
    }
}

impl BitMaskingTable {
    /// The table of the masks that flip exactly one of the lowest `num_bits`
    /// bits.
    pub fn new_one_bit(num_bits: u32) -> (bt: Self)
        ensures
            bt@ == one_bit_masks(num_bits as nat),
    {
        let mut cur_mask: u32 = 1;
        let mut count: u32 = 0;
        let mut bt = BitMaskingTable { bitmasks: Vec::<u32>::new() };
        assert(1u32 << 0u32 == 1u32) by (bit_vector);
        while count < num_bits
            invariant
                count <= num_bits,
                cur_mask == bit(count as nat),
                bt.bitmasks@ == one_bit_masks(count as nat),
            decreases num_bits - count,
        {
            bt.bitmasks.push(cur_mask);
            proof {
                lemma_bit_step(count as nat);
            }
            cur_mask = cur_mask << 1;
            count += 1;
        }
        bt
    }

    /// The table of the masks that flip exactly two of the lowest `num_bits`
    /// bits: by ascending lower position, then by ascending upper position.
    pub fn new_two_bit(num_bits: u32) -> (bt: Self)
        ensures
            bt@ == two_bit_masks(num_bits as nat),
            2 * bt@.len() == num_bits * (num_bits - 1),
    {
        let mut cur_first_bit_mask: u32 = 1;
        let mut first_bit_count: u32 = 0;
        let mut bt = BitMaskingTable { bitmasks: Vec::<u32>::new() };
        assert(1u32 << 0u32 == 1u32) by (bit_vector);
        while first_bit_count < num_bits
            invariant
                first_bit_count <= num_bits,
                cur_first_bit_mask == bit(first_bit_count as nat),
                bt.bitmasks@ == two_bit_rows(num_bits as nat, first_bit_count as nat),
            decreases num_bits - first_bit_count,
        {
            proof {
                lemma_bit_step(first_bit_count as nat);
            }
            let mut cur_second_bit_mask: u32 = cur_first_bit_mask << 1;
            let num_second_bits: u32 = num_bits - first_bit_count - 1;
            let mut second_bit_count: u32 = 0;
            let ghost done = bt.bitmasks@;
            while second_bit_count < num_second_bits
                invariant
                    first_bit_count < num_bits,
                    num_second_bits == num_bits - first_bit_count - 1,
                    second_bit_count <= num_second_bits,
                    cur_first_bit_mask == bit(first_bit_count as nat),
                    cur_second_bit_mask == bit((first_bit_count + 1 + second_bit_count) as nat),
                    bt.bitmasks@ == done + two_bit_row(
                        num_bits as nat,
                        first_bit_count as nat,
                    ).take(second_bit_count as int),
                decreases num_second_bits - second_bit_count,
            {
                let new_entry: u32 = cur_first_bit_mask | cur_second_bit_mask;
                bt.bitmasks.push(new_entry);
                proof {
                    lemma_bit_step((first_bit_count + 1 + second_bit_count) as nat);
                }
                cur_second_bit_mask = cur_second_bit_mask << 1;
                second_bit_count += 1;
            }
            cur_first_bit_mask = cur_first_bit_mask << 1;
            first_bit_count += 1;
        }
        proof {
            lemma_two_bit_rows_len(num_bits as nat, num_bits as nat);
            assert(num_bits * (2 * num_bits - num_bits - 1) == num_bits * (num_bits - 1))
                by (nonlinear_arith);
        }
        bt
    }

    /// The mask at index `entry`, or zero when `entry` is past the table's end.
    pub fn get_mask(&self, entry: usize) -> (mask: u32)
        ensures
            mask == (if entry < self@.len() {
                self@[entry as int]
            } else {
                0u32
            }),
    {
        if entry < self.bitmasks.len() {
            self.bitmasks[entry]
        } else {
            0
        }
    }

    /// The number of masks in the table.
    pub fn len(&self) -> (n: usize)
        ensures
            n == self@.len(),
    {
        self.bitmasks.len()
    }
}

} // verus!
