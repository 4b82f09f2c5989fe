use std::collections::HashMap;
use vstd::prelude::*;

use crate::model::{
    avoids_empty, block_avoids_empty, consistent, is_arrangement, is_solution,
    lists_solutions, precedes, sets_of, span,
    starts_from, strictly_sorted, CellState, Placement,
};
use crate::validity::{block_clear, placements_valid};

verus! {

/// A placement set splits into its first block and an arrangement of the
/// remaining blocks that starts after the first block's gap cell.
pub proof fn lemma_split(blocks: Seq<u8>, line: int, givens: Map<u8, CellState>, q: Seq<Placement>)
    requires
        blocks.len() > 0,
        is_arrangement(blocks, line, q),
        avoids_empty(q, givens),
    ensures
        q[0].size == blocks[0],
        q[0].offset + q[0].size <= line,
        block_avoids_empty(q[0], givens),
        is_arrangement(blocks.drop_first(), line, q.drop_first()),
        starts_from(q.drop_first(), q[0].offset + q[0].size + 1),
        avoids_empty(q.drop_first(), givens),
        q == seq![q[0]] + q.drop_first(),
{
    assert(q =~= seq![q[0]] + q.drop_first());
    let rest = q.drop_first();
    assert forall|i: int| 0 <= i < rest.len() - 1 implies (#[trigger] rest[i]).offset + rest[i].size
        < rest[i + 1].offset by {
        assert(q[i + 1].offset + q[i + 1].size < q[i + 2].offset);
    }
    if rest.len() > 0 {
        assert(q[0].offset + q[0].size < q[1].offset);
    }
}

/// A block placed in the line, clear of empty cells, followed by an arrangement
/// of the remaining blocks that starts after its gap cell, arranges all blocks.
pub proof fn lemma_join(
    blocks: Seq<u8>,
    line: int,
    from: int,
    givens: Map<u8, CellState>,
    p: Placement,
    ps: Seq<Placement>,
)
    requires
        blocks.len() > 0,
        p.size == blocks[0],
        from <= p.offset,
        p.offset + p.size <= line,
        block_avoids_empty(p, givens),
        is_arrangement(blocks.drop_first(), line, ps),
        starts_from(ps, p.offset + p.size + 1),
        avoids_empty(ps, givens),
    ensures
        is_arrangement(blocks, line, seq![p] + ps),
        starts_from(seq![p] + ps, from),
        avoids_empty(seq![p] + ps, givens),
        (seq![p] + ps)[0] == p,
        (seq![p] + ps).drop_first() == ps,
{
    let q = seq![p] + ps;
    assert(q.drop_first() =~= ps);
    assert forall|i: int| 0 <= i < q.len() - 1 implies (#[trigger] q[i]).offset + q[i].size
        < q[i + 1].offset by {
        if i > 0 {
            assert(ps[i - 1].offset + ps[i - 1].size < ps[i].offset);
        }
    }
    assert forall|i: int| 0 <= i < q.len() implies block_avoids_empty(#[trigger] q[i], givens) by {
        if i > 0 {
            assert(q[i] == ps[i - 1]);
        }
    }
}

/// An arrangement whose first block starts at a given cell needs `span` cells
/// from there, the last gap cell excepted.
pub proof fn lemma_room(blocks: Seq<u8>, line: int, q: Seq<Placement>)
    requires
        blocks.len() > 0,
        is_arrangement(blocks, line, q),
    ensures
        q[0].offset + span(blocks) <= line + 1,
    decreases blocks.len(),
{
    lemma_split(blocks, line, Map::empty(), q);
    let rest = blocks.drop_first();
    if rest.len() > 0 {
        lemma_room(rest, line, q.drop_first());
    } else {
        assert(span(rest) == 0);
    }
}

/// The blocks from index `i` on take no more cells than all of them.
pub proof fn lemma_span_suffix(blocks: Seq<u8>, i: int)
    requires
        0 <= i <= blocks.len(),
    ensures
        span(blocks.subrange(i, blocks.len() as int)) <= span(blocks),
    decreases i,
{
    if i == 0 {
        assert(blocks.subrange(0, blocks.len() as int) =~= blocks);
    } else {
        lemma_span_suffix(blocks, i - 1);
        let s = blocks.subrange(i - 1, blocks.len() as int);
        assert(s.drop_first() =~= blocks.subrange(i, blocks.len() as int));
    }
}

/// The cells that `blocks` take, each with its gap cell, when that is at most
/// `limit`; `None` when it is more.
fn span_within(blocks: &Vec<u8>, limit: u8) -> (r: Option<u16>)
    ensures
        match r {
            Some(n) => n == span(blocks@) && n <= limit,
            None => span(blocks@) > limit,
        },
{
    let len = blocks.len();
    let mut total: u16 = 0;
    let mut i: usize = len;
    while i > 0
        invariant
            i <= len == blocks.len(),
            total == span(blocks@.subrange(i as int, len as int)),
            total <= limit,
        decreases i,
    {
        i = i - 1;
        assert(blocks@.subrange(i as int, len as int).drop_first() =~= blocks@.subrange(
            i + 1,
            len as int,
        ));
        let next: u16 = total + blocks[i] as u16 + 1;
        if next > limit as u16 {
            proof {
                lemma_span_suffix(blocks@, i as int);
            }
            return None;
        }
        total = next;
    }
    assert(blocks@.subrange(0, len as int) =~= blocks@);
    Some(total)
}

/// The placement set made of `p` followed by the blocks of `rest`.
fn prepend(p: Placement, rest: &Vec<Placement>) -> (r: Vec<Placement>)
    ensures
        r@ == seq![p] + rest@,
{
    let mut r: Vec<Placement> = Vec::new();
    r.push(p);
    let mut k: usize = 0;
    while k < rest.len()
        invariant
            k <= rest.len(),
            r@ == seq![p] + rest@.subrange(0, k as int),
        decreases rest.len() - k,
    {
        r.push(rest[k]);
        k = k + 1;
        assert(r@ =~= seq![p] + rest@.subrange(0, k as int));
    }
    assert(rest@.subrange(0, rest.len() as int) =~= rest@);
    r
}

/// `q` arranges `blocks` on a line of `line` cells with its first block at
/// cell `from` or later, and covers no cell known to be empty.
pub open spec fn arranged_from(
    blocks: Seq<u8>,
    line: int,
    from: int,
    givens: Map<u8, CellState>,
    q: Seq<Placement>,
) -> bool {
    is_arrangement(blocks, line, q) && starts_from(q, from) && avoids_empty(q, givens)
}

/// Every set of `s` is such an arrangement.
pub open spec fn all_arranged_from(
    blocks: Seq<u8>,
    line: int,
    from: int,
    givens: Map<u8, CellState>,
    s: Seq<Seq<Placement>>,
) -> bool {
    forall|i: int| 0 <= i < s.len() ==> arranged_from(blocks, line, from, givens, #[trigger] s[i])
}

/// `s` holds every such arrangement.
pub open spec fn holds_all_from(
    blocks: Seq<u8>,
    line: int,
    from: int,
    givens: Map<u8, CellState>,
    s: Seq<Seq<Placement>>,
) -> bool {
    forall|q: Seq<Placement>| #[trigger] arranged_from(blocks, line, from, givens, q) ==> s.contains(q)
}

/// The sets `ps` of `subs`, each with `p` put in front.
pub open spec fn led_by(p: Placement, subs: Seq<Seq<Placement>>) -> Seq<Seq<Placement>> {
    subs.map_values(|ps: Seq<Placement>| seq![p] + ps)
}

/// Appending the arrangements whose first block is `p` to those whose first
/// block starts before `p` gives, in order, all those whose first block starts
/// at `p` or before.
proof fn lemma_extend(
    blocks: Seq<u8>,
    line: int,
    from: int,
    givens: Map<u8, CellState>,
    p: Placement,
    before: Seq<Seq<Placement>>,
    subs: Seq<Seq<Placement>>,
)
    requires
        blocks.len() > 0,
        p.size == blocks[0],
        from <= p.offset,
        p.offset + p.size <= line,
        block_avoids_empty(p, givens),
        all_arranged_from(blocks.drop_first(), line, p.offset + p.size + 1, givens, subs),
        holds_all_from(blocks.drop_first(), line, p.offset + p.size + 1, givens, subs),
        strictly_sorted(subs),
        all_arranged_from(blocks, line, from, givens, before),
        forall|i: int| 0 <= i < before.len() ==> (#[trigger] before[i])[0].offset < p.offset,
        forall|q: Seq<Placement>|
            #[trigger] arranged_from(blocks, line, from, givens, q) && q[0].offset < p.offset
                ==> before.contains(q),
        strictly_sorted(before),
    ensures
        ({
            let after = before + led_by(p, subs);
            &&& all_arranged_from(blocks, line, from, givens, after)
            &&& forall|i: int| 0 <= i < after.len() ==> (#[trigger] after[i])[0].offset <= p.offset
            &&& forall|q: Seq<Placement>|
                #[trigger] arranged_from(blocks, line, from, givens, q) && q[0].offset <= p.offset
                    ==> after.contains(q)
            &&& strictly_sorted(after)
        }),
{
    let after = before + led_by(p, subs);
    let n = before.len();
    assert forall|i: int| 0 <= i < after.len() implies arranged_from(
        blocks,
        line,
        from,
        givens,
        #[trigger] after[i],
    ) && after[i][0].offset <= p.offset by {
        if i >= n {
            assert(arranged_from(blocks.drop_first(), line, p.offset + p.size + 1, givens, subs[i - n]));
            lemma_join(blocks, line, from, givens, p, subs[i - n]);
        } else {
            assert(arranged_from(blocks, line, from, givens, before[i]));
        }
    }
    assert forall|q: Seq<Placement>|
        #[trigger] arranged_from(blocks, line, from, givens, q) && q[0].offset
            <= p.offset implies after.contains(q) by {
        if q[0].offset < p.offset {
            let i = choose|i: int| 0 <= i < n && before[i] == q;
            assert(after[i] == q);
        } else {
            lemma_split(blocks, line, givens, q);
            assert(q[0] == p);
            assert(arranged_from(blocks.drop_first(), line, p.offset + p.size + 1, givens, q.drop_first()));
            let jj = choose|jj: int| 0 <= jj < subs.len() && subs[jj] == q.drop_first();
            assert(after[n + jj] == q);
        }
    }
    assert forall|a: int, b: int| 0 <= a < b < after.len() implies precedes(
        #[trigger] after[a],
        #[trigger] after[b],
    ) by {
        if b < n {
            assert(precedes(before[a], before[b]));
        } else {
            assert(arranged_from(blocks.drop_first(), line, p.offset + p.size + 1, givens, subs[b - n]));
            lemma_join(blocks, line, from, givens, p, subs[b - n]);
            if a < n {
                assert(arranged_from(blocks, line, from, givens, before[a]));
            } else {
                assert(arranged_from(blocks.drop_first(), line, p.offset + p.size + 1, givens, subs[a - n]));
                lemma_join(blocks, line, from, givens, p, subs[a - n]);
                assert(precedes(subs[a - n], subs[b - n]));
            }
        }
    }
}

/// Every arrangement of `blocks` on a line of `size` cells whose first block
/// starts at cell `offset` or later and whose blocks cover no cell known to be
/// empty, once each, in increasing order of the blocks' offsets.
pub fn find_placements_at(
    blocks: &Vec<u8>,
    size: u8,
    offset: u16,
    givens: &HashMap<u8, CellState>,
) -> (r: Vec<Vec<Placement>>)
    ensures
        all_arranged_from(blocks@, size as int, offset as int, givens@, sets_of(r@)),
        holds_all_from(blocks@, size as int, offset as int, givens@, sets_of(r@)),
        strictly_sorted(sets_of(r@)),
    decreases blocks.len(),
{
    let ghost line = size as int;
    if blocks.len() == 0 {
        let mut r: Vec<Vec<Placement>> = Vec::new();
        r.push(Vec::new());
        proof {
            assert forall|q: Seq<Placement>|
                #[trigger] arranged_from(blocks@, line, offset as int, givens@, q) implies sets_of(
                r@,
            ).contains(q) by {
                assert(q =~= sets_of(r@)[0]);
            }
        }
        return r;
    }
    let block = blocks[0];
    let mut remaining: Vec<u8> = Vec::new();
    let mut k: usize = 1;
    while k < blocks.len()
        invariant
            1 <= k <= blocks.len(),
            remaining@ == blocks@.subrange(1, k as int),
        decreases blocks.len() - k,
    {
        remaining.push(blocks[k]);
        k = k + 1;
        assert(remaining@ =~= blocks@.subrange(1, k as int));
    }
    assert(remaining@ =~= blocks@.drop_first());
    // No arrangement at all where the blocks, with their gaps, do not fit
    // between `offset` and the end of the line.
    let rest_span: u16 = match span_within(&remaining, size) {
        Some(n) => n,
        None => {
            proof {
                assert forall|q: Seq<Placement>|
                    #[trigger] arranged_from(blocks@, line, offset as int, givens@, q) implies false by {
                    lemma_room(blocks@, line, q);
                }
            }
            return Vec::new();
        },
    };
    if offset as u32 + block as u32 + rest_span as u32 > size as u32 {
        proof {
            assert forall|q: Seq<Placement>|
                #[trigger] arranged_from(blocks@, line, offset as int, givens@, q) implies false by {
                lemma_room(blocks@, line, q);
            }
        }
        return Vec::new();
    }
    let max_offset: u16 = size as u16 - block as u16 - rest_span;
    let mut ret: Vec<Vec<Placement>> = Vec::new();
    let mut offs: u16 = offset;
    while offs <= max_offset
        invariant
            line == size as int,
            blocks.len() > 0,
            block == blocks@[0],
            remaining@ == blocks@.drop_first(),
            rest_span == span(remaining@),
            max_offset + block + rest_span == size,
            offset <= offs <= max_offset + 1,
            all_arranged_from(blocks@, line, offset as int, givens@, sets_of(ret@)),
            forall|i: int| 0 <= i < ret.len() ==> (#[trigger] sets_of(ret@)[i])[0].offset < offs,
            forall|q: Seq<Placement>|
                #[trigger] arranged_from(blocks@, line, offset as int, givens@, q) && q[0].offset
                    < offs ==> sets_of(ret@).contains(q),
            strictly_sorted(sets_of(ret@)),
        decreases max_offset + 1 - offs,
    {
        let p = Placement { offset: offs as u8, size: block };
        if block_clear(p, givens) {
            let sub = find_placements_at(&remaining, size, offs + block as u16 + 1, givens);
            let ghost before = sets_of(ret@);
            let ghost subs = sets_of(sub@);
            proof {
                lemma_extend(blocks@, line, offset as int, givens@, p, before, subs);
            }
            let mut j: usize = 0;
            while j < sub.len()
                invariant
                    j <= sub.len(),
                    subs == sets_of(sub@),
                    sets_of(ret@) == before + led_by(p, subs.subrange(0, j as int)),
                decreases sub.len() - j,
            {
                let set = prepend(p, &sub[j]);
                let ghost prev = sets_of(ret@);
                ret.push(set);
                assert(sets_of(ret@) =~= prev.push(seq![p] + subs[j as int]));
                assert(led_by(p, subs.subrange(0, j + 1)) =~= led_by(p, subs.subrange(0, j as int)).push(
                    seq![p] + subs[j as int],
                ));
                j = j + 1;
                assert(sets_of(ret@) =~= before + led_by(p, subs.subrange(0, j as int)));
            }
            assert(subs.subrange(0, sub.len() as int) =~= subs);
        } else {
            proof {
                assert forall|q: Seq<Placement>|
                    #[trigger] arranged_from(blocks@, line, offset as int, givens@, q) && q[0].offset
                        < offs + 1 implies sets_of(ret@).contains(q) by {
                    if q[0].offset == offs {
                        lemma_split(blocks@, line, givens@, q);
                        assert(q[0] == p);
                    }
                }
            }
        }
        offs = offs + 1;
    }
    proof {
        assert forall|q: Seq<Placement>|
            #[trigger] arranged_from(blocks@, line, offset as int, givens@, q) implies sets_of(
            ret@,
        ).contains(q) by {
            lemma_room(blocks@, line, q);
        }
    }
    ret
}

/// Every placement of `blocks`, in order and with at least one empty cell
/// between neighbours, on a line of `size` cells that contradicts none of the
/// known cells in `givens`: each exactly once, ordered by the first block's
/// offset, then by the second's, and so on.
pub fn find_placements(blocks: &Vec<u8>, size: u8, givens: &HashMap<u8, CellState>) -> (r: Vec<
    Vec<Placement>,
>)
    ensures
        lists_solutions(blocks@, size as int, givens@, sets_of(r@)),
{
    let all = find_placements_at(blocks, size, 0, givens);
    let ghost sets = sets_of(all@);
    let ghost line = size as int;
    let mut r: Vec<Vec<Placement>> = Vec::new();
    // where each kept set stands in `all`
    let ghost mut kept: Seq<int> = Seq::empty();
    let mut i: usize = 0;
    while i < all.len()
        invariant
            i <= all.len(),
            sets == sets_of(all@),
            line == size as int,
            all_arranged_from(blocks@, line, 0, givens@, sets),
            strictly_sorted(sets),
            kept.len() == r.len(),
            forall|k: int|
                0 <= k < r.len() ==> 0 <= #[trigger] kept[k] < i && sets_of(r@)[k] == sets[kept[k]]
                    && consistent(sets[kept[k]], givens@),
            forall|k: int, l: int| 0 <= k < l < r.len() ==> #[trigger] kept[k] < #[trigger] kept[l],
            forall|m: int|
                0 <= m < i && consistent(#[trigger] sets[m], givens@) ==> sets_of(r@).contains(
                    sets[m],
                ),
        decreases all.len() - i,
    {
        if placements_valid(&all[i], givens) {
            let ghost prev = sets_of(r@);
            r.push(all[i].clone());
            proof {
                assert(all@[i as int]@ == sets[i as int]);
                kept = kept.push(i as int);
                assert(sets_of(r@) =~= prev.push(sets[i as int]));
                assert(sets_of(r@)[prev.len() as int] == sets[i as int]);
                assert forall|m: int|
                    0 <= m <= i && consistent(#[trigger] sets[m], givens@) implies sets_of(
                    r@,
                ).contains(sets[m]) by {
                    if m < i {
                        let w = choose|w: int| 0 <= w < prev.len() && prev[w] == sets[m];
                        assert(sets_of(r@)[w] == sets[m]);
                    }
                }
            }
        } else {
            assert(all@[i as int]@ == sets[i as int]);
        }
        i = i + 1;
    }
    proof {
        assert forall|a: int, b: int| 0 <= a < b < r.len() implies precedes(
            #[trigger] sets_of(r@)[a],
            #[trigger] sets_of(r@)[b],
        ) by {
            assert(precedes(sets[kept[a]], sets[kept[b]]));
        }
        assert forall|k: int| 0 <= k < r.len() implies is_solution(
            blocks@,
            line,
            givens@,
            #[trigger] sets_of(r@)[k],
        ) by {
            assert(arranged_from(blocks@, line, 0, givens@, sets[kept[k]]));
        }
        assert forall|q: Seq<Placement>| #[trigger]
            is_solution(blocks@, line, givens@, q) implies sets_of(r@).contains(q) by {
            assert(arranged_from(blocks@, line, 0, givens@, q));
            let m = choose|m: int| 0 <= m < sets.len() && sets[m] == q;
            assert(consistent(sets[m], givens@));
        }
    }
    r
}

} // verus!
