//! The back-end primitive: the lane mask of one chunk of sixteen bytes.
use vstd::prelude::*;
use crate::bits::lane_bit;
use crate::bits::lemma_empty_mask;
use crate::bits::lemma_set_lane;
use crate::bits::lemma_split_byte;
use crate::table::model;

verus! {

/// Computes the lane mask of `data` lane by lane: lane `i` is set exactly when
/// the low entry of the byte's low nibble, the high entry of its high nibble
/// and `bit_mask` share a column.
pub fn bitmask_16b(low_tab: &[u8; 16], high_tab: &[u8; 16], bit_mask: u8, data: &[u8; 16]) -> (mask:
    u16)
    ensures
        model(*low_tab, *high_tab, bit_mask).is_lane_mask(data@, mask),
{
    let ghost t = model(*low_tab, *high_tab, bit_mask);
    let mut mask = 0u16;
    let mut i: usize = 0;
    proof {
        assert forall|j: u16| j < 16 implies !lane_bit(mask, j) by {
            lemma_empty_mask(j);
        }
    }
    while i < 16
        invariant
            i <= 16,
            t == model(*low_tab, *high_tab, bit_mask),
            forall|j: u16| j < i ==> (#[trigger] lane_bit(mask, j) <==> t.matches(data@[j as int])),
            forall|j: u16| i <= j < 16 ==> !#[trigger] lane_bit(mask, j),
        decreases 16 - i,
    {
        let b = data[i];
        proof {
            lemma_split_byte(b);
        }
        let lo = (b & 0x0f) as usize;
        let hi = (b >> 4) as usize;
        if (low_tab[lo] & high_tab[hi] & bit_mask) != 0 {
            let ghost before = mask;
            mask = mask | (1u16 << i);
            proof {
                assert forall|j: u16| j < 16 implies (lane_bit(mask, j) <==> lane_bit(before, j)
                    || j == i) by {
                    lemma_set_lane(before, i as u16, j);
                }
            }
        }
        i += 1;
    }
    mask
}

} // verus!
