//! Seeds for the random number generators of the trees, and counters that
//! stop at the largest number.

use vstd::prelude::*;

verus! {

/// The byte of a value at a position, counted from the most significant
/// byte, which has position 0.
pub open spec fn byte_of(value: u64, position: int) -> u8 {
    ((value >> ((8 * (7 - position)) as u64)) & 0xff) as u8
}

fn byte_at(value: u64, position: u64) -> (byte: u8)
    requires
        position < 8,
    ensures
        byte == byte_of(value, position as int),
{
    let shift: u64 = 8 * (7 - position);
    let low: u64 = (value >> shift) & 0xff;
    assert(low <= 0xff) by (bit_vector)
        requires
            low == (value >> shift) & 0xff,
    ;
    low as u8
}

/// The sixteen bytes from which the generator of a tree is seeded: the
/// seed of the ensemble and then the index of the tree, most significant
/// byte first.
pub fn as_bytes(seed: u64, tree_index: u64) -> (bytes: [u8; 16])
    ensures
        forall|position: int| 0 <= position < 8 ==> #[trigger] bytes[position] == byte_of(seed, position),
        forall|position: int| 0 <= position < 8 ==> #[trigger] bytes[8 + position] == byte_of(tree_index, position),
{
    [
        byte_at(seed, 0),
        byte_at(seed, 1),
        byte_at(seed, 2),
        byte_at(seed, 3),
        byte_at(seed, 4),
        byte_at(seed, 5),
        byte_at(seed, 6),
        byte_at(seed, 7),
        byte_at(tree_index, 0),
        byte_at(tree_index, 1),
        byte_at(tree_index, 2),
        byte_at(tree_index, 3),
        byte_at(tree_index, 4),
        byte_at(tree_index, 5),
        byte_at(tree_index, 6),
        byte_at(tree_index, 7),
    ]
}

/// A count as a number of the machine: the largest one where it does not fit.
pub open spec fn capped(count: nat) -> usize {
    if count <= usize::MAX {
        count as usize
    } else {
        usize::MAX
    }
}

/// The sum of two capped counts, capped.
pub(crate) fn add_capped(a: usize, b: usize) -> (sum: usize)
    ensures
        sum == capped((a + b) as nat),
        forall|x: nat, y: nat| a == capped(x) && b == capped(y) ==> sum == #[trigger] capped(x + y),
{
    if a > usize::MAX - b {
        usize::MAX
    } else {
        a + b
    }
}

} // verus!
