use std::collections::HashMap;
use vstd::prelude::*;

use crate::model::{
    avoids_empty, block_avoids_empty, consistent, covered, covers, known_empty, known_filled,
    CellState, Placement,
};

verus! {

broadcast use vstd::std_specs::hash::group_hash_axioms;

/// Whether the block `p` stays clear of every cell known to be empty.
pub fn block_clear(p: Placement, givens: &HashMap<u8, CellState>) -> (r: bool)
    ensures
        r == block_avoids_empty(p, givens@),
{
    let end: u16 = p.offset as u16 + p.size as u16;
    let mut c: u16 = p.offset as u16;
    while c < end
        invariant
            p.offset <= c <= end,
            end == p.offset + p.size,
            forall|k: u8| known_empty(givens@, k) && p.offset <= k < c ==> !covers(p, k as int),
        decreases end - c,
    {
        if c < 256 {
            if let Some(CellState::Empty) = givens.get(&(c as u8)) {
                assert(known_empty(givens@, c as u8) && covers(p, c as int));
                return false;
            }
        }
        c = c + 1;
    }
    true
}

/// Whether some block of `placements` occupies cell `k`.
fn is_covered(placements: &Vec<Placement>, k: u8) -> (r: bool)
    ensures
        r == covered(placements@, k as int),
{
    let mut i: usize = 0;
    while i < placements.len()
        invariant
            i <= placements.len(),
            forall|j: int| 0 <= j < i ==> !covers(placements@[j], k as int),
        decreases placements.len() - i,
    {
        let p = placements[i];
        if p.offset <= k && (k as u16) < p.offset as u16 + p.size as u16 {
            assert(covers(placements@[i as int], k as int));
            return true;
        }
        i = i + 1;
    }
    false
}

/// Whether the placement set contradicts none of the known cells: no block
/// covers a cell known to be empty, and every cell known to be filled is
/// covered by some block.
pub fn placements_valid(placements: &Vec<Placement>, givens: &HashMap<u8, CellState>) -> (r: bool)
    ensures
        r == consistent(placements@, givens@),
{
    let mut i: usize = 0;
    while i < placements.len()
        invariant
            i <= placements.len(),
            forall|j: int| 0 <= j < i ==> block_avoids_empty(#[trigger] placements@[j], givens@),
        decreases placements.len() - i,
    {
        if !block_clear(placements[i], givens) {
            return false;
        }
        i = i + 1;
    }
    let mut k: u16 = 0;
    while k < 256
        invariant
            k <= 256,
            avoids_empty(placements@, givens@),
            forall|c: u8| c < k && #[trigger] known_filled(givens@, c) ==> covered(placements@, c as int),
        decreases 256 - k,
    {
        if let Some(CellState::Filled) = givens.get(&(k as u8)) {
            if !is_covered(placements, k as u8) {
                assert(known_filled(givens@, k as u8));
                return false;
            }
        }
        k = k + 1;
    }
    true
}

} // verus!
