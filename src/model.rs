use vstd::prelude::*;

verus! {

/// One block's resolved position: it occupies the cells `offset .. offset + size`.
#[derive(Clone, Copy, Debug, PartialEq, Eq, Structural)]
pub struct Placement {
    pub offset: u8,
    pub size: u8,
}

/// What is known of one cell of the line; a cell absent from the givens is unknown.
#[derive(Clone, Copy, Debug, PartialEq, Eq, Structural)]
pub enum CellState {
    Unknown,
    Filled,
    Empty,
}

/// The block `p` occupies cell `c`.
pub open spec fn covers(p: Placement, c: int) -> bool {
    p.offset <= c < p.offset + p.size
}

/// Some block of `ps` occupies cell `c`.
pub open spec fn covered(ps: Seq<Placement>, c: int) -> bool {
    exists|i: int| 0 <= i < ps.len() && #[trigger] covers(ps[i], c)
}

/// Cell `k` is known to be empty.
pub open spec fn known_empty(givens: Map<u8, CellState>, k: u8) -> bool {
    givens.contains_key(k) && givens[k] is Empty
}

/// Cell `k` is known to be filled.
pub open spec fn known_filled(givens: Map<u8, CellState>, k: u8) -> bool {
    givens.contains_key(k) && givens[k] is Filled
}

/// The block `p` occupies no cell known to be empty.
pub open spec fn block_avoids_empty(p: Placement, givens: Map<u8, CellState>) -> bool {
    forall|k: u8| known_empty(givens, k) ==> !#[trigger] covers(p, k as int)
}

/// No block of `ps` occupies a cell known to be empty.
pub open spec fn avoids_empty(ps: Seq<Placement>, givens: Map<u8, CellState>) -> bool {
    forall|i: int| 0 <= i < ps.len() ==> block_avoids_empty(#[trigger] ps[i], givens)
}

/// Every cell known to be filled lies in some block of `ps`.
pub open spec fn covers_filled(ps: Seq<Placement>, givens: Map<u8, CellState>) -> bool {
    forall|k: u8| #[trigger] known_filled(givens, k) ==> covered(ps, k as int)
}

/// `ps` contradicts none of the known cells.
pub open spec fn consistent(ps: Seq<Placement>, givens: Map<u8, CellState>) -> bool {
    avoids_empty(ps, givens) && covers_filled(ps, givens)
}

/// `ps` places the blocks `blocks` on a line of `line` cells: one placement per
/// block, of that block's size, in order, each ending inside the line and
/// followed by at least one empty cell before the next.
pub open spec fn is_arrangement(blocks: Seq<u8>, line: int, ps: Seq<Placement>) -> bool {
    &&& ps.len() == blocks.len()
    &&& forall|i: int| 0 <= i < ps.len() ==> (#[trigger] ps[i]).size == blocks[i]
    &&& forall|i: int| 0 <= i < ps.len() ==> (#[trigger] ps[i]).offset + ps[i].size <= line
    &&& forall|i: int|
        0 <= i < ps.len() - 1 ==> (#[trigger] ps[i]).offset + ps[i].size < ps[i + 1].offset
}

/// `ps` is one of the answers for `blocks` on a line of `line` cells: an
/// arrangement of the blocks that contradicts none of the known cells.
pub open spec fn is_solution(
    blocks: Seq<u8>,
    line: int,
    givens: Map<u8, CellState>,
    ps: Seq<Placement>,
) -> bool {
    is_arrangement(blocks, line, ps) && consistent(ps, givens)
}

/// `s` lists every answer for `blocks` on a line of `line` cells and nothing
/// else, in strictly increasing order of the blocks' offsets.
pub open spec fn lists_solutions(
    blocks: Seq<u8>,
    line: int,
    givens: Map<u8, CellState>,
    s: Seq<Seq<Placement>>,
) -> bool {
    &&& forall|i: int| 0 <= i < s.len() ==> is_solution(blocks, line, givens, #[trigger] s[i])
    &&& forall|q: Seq<Placement>| #[trigger] is_solution(blocks, line, givens, q) ==> s.contains(q)
    &&& strictly_sorted(s)
}

/// The first block of `ps`, if any, starts at cell `from` or later.
pub open spec fn starts_from(ps: Seq<Placement>, from: int) -> bool {
    ps.len() > 0 ==> ps[0].offset >= from
}

/// Cells taken by `blocks` when each is followed by one gap cell.
pub open spec fn span(blocks: Seq<u8>) -> int
    decreases blocks.len(),
{
    if blocks.len() == 0 {
        0
    } else {
        blocks[0] + 1 + span(blocks.drop_first())
    }
}

/// Lexicographic order on the blocks' offsets: `a` comes strictly before `b`.
pub open spec fn precedes(a: Seq<Placement>, b: Seq<Placement>) -> bool
    decreases a.len(),
{
    if a.len() == 0 || b.len() == 0 {
        false
    } else if a[0].offset != b[0].offset {
        a[0].offset < b[0].offset
    } else {
        precedes(a.drop_first(), b.drop_first())
    }
}

/// The placement sets held by a result.
pub open spec fn sets_of(r: Seq<Vec<Placement>>) -> Seq<Seq<Placement>> {
    r.map_values(|v: Vec<Placement>| v@)
}

/// Each set of `s` comes strictly before the sets after it.
pub open spec fn strictly_sorted(s: Seq<Seq<Placement>>) -> bool {
    forall|i: int, j: int| 0 <= i < j < s.len() ==> precedes(#[trigger] s[i], #[trigger] s[j])
}

} // verus!
