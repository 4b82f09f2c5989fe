use vstd::prelude::*;

use crate::model::{
    consistent, covers, is_arrangement, is_solution, known_empty, known_filled, lists_solutions,
    precedes, span, strictly_sorted, CellState, Placement,
};
use crate::enumerate::lemma_room;

verus! {

/// In an arrangement every block ends, with a gap cell to spare, before any
/// later block starts: the blocks keep their order and never overlap.
pub proof fn lemma_blocks_apart(blocks: Seq<u8>, line: int, ps: Seq<Placement>, i: int, j: int)
    requires
        is_arrangement(blocks, line, ps),
        0 <= i < j < ps.len(),
    ensures
        ps[i].offset + ps[i].size < ps[j].offset,
        forall|c: int| !(covers(ps[i], c) && covers(ps[j], c)),
    decreases j - i,
{
    if j > i + 1 {
        lemma_blocks_apart(blocks, line, ps, i, j - 1);
        assert(ps[j - 1].offset + ps[j - 1].size < ps[j].offset);
    }
}

/// No placement set comes strictly before itself.
pub proof fn lemma_precedes_irreflexive(a: Seq<Placement>)
    ensures
        !precedes(a, a),
    decreases a.len(),
{
    if a.len() > 0 {
        lemma_precedes_irreflexive(a.drop_first());
    }
}

/// Coming before is transitive.
pub proof fn lemma_precedes_transitive(a: Seq<Placement>, b: Seq<Placement>, c: Seq<Placement>)
    requires
        precedes(a, b),
        precedes(b, c),
    ensures
        precedes(a, c),
    decreases a.len(),
{
    if a[0].offset == b[0].offset && b[0].offset == c[0].offset {
        lemma_precedes_transitive(a.drop_first(), b.drop_first(), c.drop_first());
    }
}

/// Two strictly sorted sequences that hold the same sets are equal.
pub proof fn lemma_sorted_unique(s1: Seq<Seq<Placement>>, s2: Seq<Seq<Placement>>)
    requires
        strictly_sorted(s1),
        strictly_sorted(s2),
        forall|x: Seq<Placement>| s1.contains(x) <==> s2.contains(x),
    ensures
        s1 == s2,
    decreases s1.len(),
{
    if s1.len() == 0 {
        if s2.len() > 0 {
            assert(s2.contains(s2[0]));
        }
        assert(s1 =~= s2);
    } else {
        assert(s1.contains(s1[0]));
        let k = choose|k: int| 0 <= k < s2.len() && s2[k] == s1[0];
        assert(s2.contains(s2[0]));
        let m = choose|m: int| 0 <= m < s1.len() && s1[m] == s2[0];
        if k > 0 {
            assert(precedes(s2[0], s2[k]));
            if m > 0 {
                assert(precedes(s1[0], s1[m]));
                lemma_precedes_transitive(s1[0], s2[0], s1[0]);
                lemma_precedes_irreflexive(s1[0]);
            } else {
                lemma_precedes_irreflexive(s1[0]);
            }
        }
        assert(s1[0] == s2[0]);
        let t1 = s1.drop_first();
        let t2 = s2.drop_first();
        assert forall|x: Seq<Placement>| t1.contains(x) implies t2.contains(x) by {
            let a = choose|a: int| 0 <= a < t1.len() && t1[a] == x;
            assert(s1[a + 1] == x && precedes(s1[0], s1[a + 1]));
            lemma_precedes_irreflexive(x);
            assert(s2.contains(x));
            let b = choose|b: int| 0 <= b < s2.len() && s2[b] == x;
            assert(b != 0);
            assert(t2[b - 1] == x);
        }
        assert forall|x: Seq<Placement>| t2.contains(x) implies t1.contains(x) by {
            let b = choose|b: int| 0 <= b < t2.len() && t2[b] == x;
            assert(s2[b + 1] == x && precedes(s2[0], s2[b + 1]));
            lemma_precedes_irreflexive(x);
            assert(s1.contains(x));
            let a = choose|a: int| 0 <= a < s1.len() && s1[a] == x;
            assert(a != 0);
            assert(t1[a - 1] == x);
        }
        lemma_sorted_unique(t1, t2);
        assert(s1 =~= seq![s1[0]] + t1);
        assert(s2 =~= seq![s2[0]] + t2);
    }
}

/// A strictly sorted sequence holds no set twice.
pub proof fn lemma_sorted_no_duplicates(s: Seq<Seq<Placement>>)
    requires
        strictly_sorted(s),
    ensures
        s.no_duplicates(),
{
    assert forall|i: int, j: int| 0 <= i < s.len() && 0 <= j < s.len() && i != j implies s[i]
        != s[j] by {
        lemma_precedes_irreflexive(s[i]);
        if i < j {
            assert(precedes(s[i], s[j]));
        } else {
            assert(precedes(s[j], s[i]));
        }
    }
}

/// Every answer for the blocks, the line and the known cells appears in the
/// listed result exactly once.
pub proof fn lemma_found_once(
    blocks: Seq<u8>,
    line: int,
    givens: Map<u8, CellState>,
    s: Seq<Seq<Placement>>,
    q: Seq<Placement>,
)
    requires
        lists_solutions(blocks, line, givens, s),
        is_solution(blocks, line, givens, q),
    ensures
        s.contains(q),
        forall|i: int, j: int|
            0 <= i < s.len() && 0 <= j < s.len() && s[i] == q && s[j] == q ==> i == j,
{
    lemma_sorted_no_duplicates(s);
}

/// The result is determined by the blocks, the line and the known cells: two
/// results for the same inputs are the same sets in the same order.
pub proof fn lemma_result_determined(
    blocks: Seq<u8>,
    line: int,
    givens: Map<u8, CellState>,
    s1: Seq<Seq<Placement>>,
    s2: Seq<Seq<Placement>>,
)
    requires
        lists_solutions(blocks, line, givens, s1),
        lists_solutions(blocks, line, givens, s2),
    ensures
        s1 == s2,
{
    assert forall|x: Seq<Placement>| s1.contains(x) <==> s2.contains(x) by {
        if s1.contains(x) {
            let i = choose|i: int| 0 <= i < s1.len() && s1[i] == x;
            assert(is_solution(blocks, line, givens, s1[i]));
        }
        if s2.contains(x) {
            let i = choose|i: int| 0 <= i < s2.len() && s2[i] == x;
            assert(is_solution(blocks, line, givens, s2[i]));
        }
    }
    lemma_sorted_unique(s1, s2);
}

/// Knowing one more cell never adds answers: with an entry for a cell that
/// `givens` left unknown, the result is no longer than without it.
pub proof fn lemma_more_givens_no_more_results(
    blocks: Seq<u8>,
    line: int,
    givens: Map<u8, CellState>,
    cell: u8,
    state: CellState,
    fewer: Seq<Seq<Placement>>,
    more: Seq<Seq<Placement>>,
)
    requires
        !givens.contains_key(cell),
        lists_solutions(blocks, line, givens, fewer),
        lists_solutions(blocks, line, givens.insert(cell, state), more),
    ensures
        more.len() <= fewer.len(),
{
    let g2 = givens.insert(cell, state);
    assert forall|x: Seq<Placement>| more.to_set().contains(x) implies fewer.to_set().contains(
        x,
    ) by {
        assert(more.contains(x));
        let i = choose|i: int| 0 <= i < more.len() && more[i] == x;
        assert(is_solution(blocks, line, g2, more[i]));
        assert forall|k: u8| known_empty(givens, k) implies known_empty(g2, k) by {}
        assert forall|k: u8| #[trigger] known_filled(givens, k) implies known_filled(g2, k) by {}
        assert(consistent(x, givens));
        assert(is_solution(blocks, line, givens, x));
        assert(fewer.contains(x));
    }
    lemma_sorted_no_duplicates(more);
    more.unique_seq_to_set();
    fewer.lemma_cardinality_of_set();
    vstd::set_lib::lemma_len_subset(more.to_set(), fewer.to_set());
}

/// With no blocks the one answer is the empty placement set, unless a cell is
/// known to be filled: then there is none.
pub proof fn lemma_no_blocks(line: int, givens: Map<u8, CellState>, s: Seq<Seq<Placement>>)
    requires
        lists_solutions(Seq::empty(), line, givens, s),
    ensures
        (forall|k: u8| !known_filled(givens, k)) ==> s == seq![Seq::<Placement>::empty()],
        (exists|k: u8| known_filled(givens, k)) ==> s.len() == 0,
{
    let none = Seq::<Placement>::empty();
    if exists|k: u8| known_filled(givens, k) {
        let k = choose|k: u8| known_filled(givens, k);
        if s.len() > 0 {
            assert(is_solution(Seq::empty(), line, givens, s[0]));
            assert(s[0].len() == 0);
        }
    } else {
        assert(is_solution(Seq::empty(), line, givens, none));
        assert(s.contains(none));
        assert forall|i: int| 0 <= i < s.len() implies s[i] == none by {
            assert(is_solution(Seq::empty(), line, givens, s[i]));
            assert(s[i] =~= none);
        }
        if s.len() > 1 {
            assert(precedes(s[0], s[1]));
        }
        assert(s =~= seq![none]);
    }
}

/// Blocks that, with one empty cell between neighbours, need more cells than
/// the line has have no answer: `span` counts each block and one gap cell
/// after it, so the blocks need `span(blocks) - 1` cells.
pub proof fn lemma_too_long(
    blocks: Seq<u8>,
    line: int,
    givens: Map<u8, CellState>,
    s: Seq<Seq<Placement>>,
)
    requires
        line >= 0,
        lists_solutions(blocks, line, givens, s),
        span(blocks) - 1 > line,
    ensures
        s.len() == 0,
{
    if s.len() > 0 {
        assert(is_solution(blocks, line, givens, s[0]));
        if blocks.len() > 0 {
            lemma_room(blocks, line, s[0]);
        }
    }
}

} // verus!
