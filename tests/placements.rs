use std::collections::HashMap;

use line_placements::{find_placements, find_placements_at, placements_valid, CellState, Placement};

fn pl(offset: u8, size: u8) -> Placement {
    Placement { offset, size }
}

fn offsets(sets: &Vec<Vec<Placement>>) -> Vec<Vec<u8>> {
    sets.iter().map(|ps| ps.iter().map(|p| p.offset).collect()).collect()
}

#[test]
fn find_placements_works() {
    let placements = find_placements(&vec![1, 5, 1], 10, &HashMap::new());

    assert_eq!(placements.len(), 4);

    for ps in placements {
        println!("{:?}", ps);
    }
}

#[test]
fn find_placements_works_with_givens() {
    let mut givens = HashMap::new();
    givens.insert(1, CellState::Empty);
    givens.insert(9, CellState::Empty);

    let placements = find_placements(&vec![1, 5, 1], 10, &givens);

    assert_eq!(placements.len(), 1);

    for ps in placements {
        println!("{:?}", ps);
    }
}

#[test]
fn three_blocks_in_lexicographic_order() {
    let placements = find_placements(&vec![1, 5, 1], 10, &HashMap::new());
    assert_eq!(
        offsets(&placements),
        vec![vec![0, 2, 8], vec![0, 2, 9], vec![0, 3, 9], vec![1, 3, 9]]
    );
    for ps in &placements {
        assert_eq!(ps[0].size, 1);
        assert_eq!(ps[1].size, 5);
        assert_eq!(ps[2].size, 1);
    }
}

#[test]
fn empty_givens_keep_the_one_set_clear_of_them() {
    let mut givens = HashMap::new();
    givens.insert(1, CellState::Empty);
    givens.insert(9, CellState::Empty);
    let placements = find_placements(&vec![1, 5, 1], 10, &givens);
    assert_eq!(placements, vec![vec![pl(0, 1), pl(2, 5), pl(8, 1)]]);
}

#[test]
fn no_blocks_give_one_empty_set() {
    let placements = find_placements(&vec![], 5, &HashMap::new());
    assert_eq!(placements, vec![Vec::<Placement>::new()]);
}

#[test]
fn no_blocks_with_empty_givens_give_one_empty_set() {
    let mut givens = HashMap::new();
    givens.insert(2, CellState::Empty);
    givens.insert(3, CellState::Unknown);
    let placements = find_placements(&vec![], 5, &givens);
    assert_eq!(placements, vec![Vec::<Placement>::new()]);
}

#[test]
fn no_blocks_with_a_filled_given_give_nothing() {
    let mut givens = HashMap::new();
    givens.insert(2, CellState::Filled);
    let placements = find_placements(&vec![], 5, &givens);
    assert!(placements.is_empty());
}

#[test]
fn block_longer_than_line_gives_nothing() {
    let placements = find_placements(&vec![3], 2, &HashMap::new());
    assert!(placements.is_empty());
}

#[test]
fn blocks_with_gaps_longer_than_line_give_nothing() {
    // 3 + 3 + one gap cell is 7 cells
    assert!(find_placements(&vec![3, 3], 6, &HashMap::new()).is_empty());
    assert_eq!(
        find_placements(&vec![3, 3], 7, &HashMap::new()),
        vec![vec![pl(0, 3), pl(4, 3)]]
    );
}

#[test]
fn filled_given_is_covered_by_first_block() {
    let mut givens = HashMap::new();
    givens.insert(0, CellState::Filled);
    let placements = find_placements(&vec![2, 2], 5, &givens);
    assert_eq!(placements, vec![vec![pl(0, 2), pl(3, 2)]]);
}

#[test]
fn filled_given_is_covered_by_last_block() {
    let mut givens = HashMap::new();
    givens.insert(6, CellState::Filled);
    let placements = find_placements(&vec![1, 2], 7, &givens);
    assert_eq!(
        offsets(&placements),
        vec![vec![0, 5], vec![1, 5], vec![2, 5], vec![3, 5]]
    );
}

#[test]
fn filled_given_outside_line_gives_nothing() {
    let mut givens = HashMap::new();
    givens.insert(200, CellState::Filled);
    assert!(find_placements(&vec![1], 10, &givens).is_empty());
}

#[test]
fn empty_given_outside_line_is_ignored() {
    let mut givens = HashMap::new();
    givens.insert(200, CellState::Empty);
    assert_eq!(find_placements(&vec![1], 3, &givens).len(), 3);
}

#[test]
fn unknown_givens_change_nothing() {
    let mut givens = HashMap::new();
    for c in 0..10u8 {
        givens.insert(c, CellState::Unknown);
    }
    assert_eq!(
        find_placements(&vec![1, 5, 1], 10, &givens),
        find_placements(&vec![1, 5, 1], 10, &HashMap::new())
    );
}

#[test]
fn same_inputs_same_result() {
    let mut givens = HashMap::new();
    givens.insert(4, CellState::Filled);
    givens.insert(0, CellState::Empty);
    let a = find_placements(&vec![2, 1, 1], 9, &givens);
    let b = find_placements(&vec![2, 1, 1], 9, &givens);
    assert_eq!(a, b);
    assert!(!a.is_empty());
}

#[test]
fn results_are_sound_arrangements() {
    let blocks = vec![2, 1, 3];
    let size = 11u8;
    let placements = find_placements(&blocks, size, &HashMap::new());
    assert!(!placements.is_empty());
    for ps in &placements {
        assert_eq!(ps.len(), blocks.len());
        for (i, p) in ps.iter().enumerate() {
            assert_eq!(p.size, blocks[i]);
            assert!(p.offset as u16 + p.size as u16 <= size as u16);
            if i + 1 < ps.len() {
                assert!(p.offset as u16 + p.size as u16 + 1 <= ps[i + 1].offset as u16);
            }
        }
    }
}

fn state(givens: &HashMap<u8, CellState>, c: u8) -> CellState {
    match givens.get(&c) {
        Some(s) => *s,
        None => CellState::Unknown,
    }
}

fn brute_force(blocks: &Vec<u8>, size: u8, givens: &HashMap<u8, CellState>) -> Vec<Vec<Placement>> {
    let n = blocks.len();
    let mut out = Vec::new();
    let mut offs = vec![0u8; n];
    loop {
        let mut ok = true;
        for i in 0..n {
            if offs[i] as u16 + blocks[i] as u16 > size as u16 {
                ok = false;
            }
            if i + 1 < n && offs[i] as u16 + blocks[i] as u16 >= offs[i + 1] as u16 {
                ok = false;
            }
        }
        if ok {
            let mut filled = vec![false; size as usize];
            for i in 0..n {
                for c in offs[i]..offs[i] + blocks[i] {
                    filled[c as usize] = true;
                }
            }
            for c in 0..=255u8 {
                let covered = (c as usize) < filled.len() && filled[c as usize];
                match state(givens, c) {
                    CellState::Empty if covered => ok = false,
                    CellState::Filled if !covered => ok = false,
                    _ => {}
                }
            }
        }
        if ok {
            out.push((0..n).map(|i| pl(offs[i], blocks[i])).collect());
        }
        // next offsets, last block fastest, so `out` comes in lexicographic order
        let mut i = n;
        loop {
            if i == 0 {
                return out;
            }
            i -= 1;
            if offs[i] < size {
                offs[i] += 1;
                for j in i + 1..n {
                    offs[j] = 0;
                }
                break;
            }
        }
    }
}

#[test]
fn matches_exhaustive_search_on_small_lines() {
    let block_lists: Vec<Vec<u8>> = vec![vec![1], vec![2, 1], vec![1, 1, 1], vec![3, 2], vec![1, 2, 1]];
    let mut given_lists: Vec<HashMap<u8, CellState>> = vec![HashMap::new()];
    let mut g = HashMap::new();
    g.insert(2, CellState::Filled);
    given_lists.push(g);
    let mut g = HashMap::new();
    g.insert(1, CellState::Empty);
    g.insert(5, CellState::Filled);
    given_lists.push(g);
    let mut g = HashMap::new();
    g.insert(0, CellState::Empty);
    g.insert(3, CellState::Empty);
    given_lists.push(g);
    for blocks in &block_lists {
        for size in 0..=8u8 {
            for givens in &given_lists {
                assert_eq!(
                    find_placements(blocks, size, givens),
                    brute_force(blocks, size, givens),
                    "blocks {:?} size {}",
                    blocks,
                    size
                );
            }
        }
    }
}

#[test]
fn adding_a_given_never_adds_results() {
    let blocks = vec![2, 1];
    let base: HashMap<u8, CellState> = HashMap::new();
    let all = find_placements(&blocks, 8, &base).len();
    for c in 0..8u8 {
        for s in [CellState::Filled, CellState::Empty, CellState::Unknown] {
            let mut more = base.clone();
            more.insert(c, s);
            assert!(find_placements(&blocks, 8, &more).len() <= all);
        }
    }
    let mut more = HashMap::new();
    more.insert(0, CellState::Filled);
    assert!(find_placements(&blocks, 8, &more).len() < all);
}

#[test]
fn longest_line_holds_one_full_block() {
    assert_eq!(
        find_placements(&vec![255], 255, &HashMap::new()),
        vec![vec![pl(0, 255)]]
    );
    assert_eq!(find_placements(&vec![254], 255, &HashMap::new()).len(), 2);
    assert_eq!(find_placements(&vec![1], 255, &HashMap::new()).len(), 255);
    assert!(find_placements(&vec![200, 100], 255, &HashMap::new()).is_empty());
}

#[test]
fn many_blocks_do_not_fit() {
    let blocks = vec![255u8; 1000];
    assert!(find_placements(&blocks, 255, &HashMap::new()).is_empty());
}

#[test]
fn placements_from_an_offset() {
    let sets = find_placements_at(&vec![2], 5, 2, &HashMap::new());
    assert_eq!(sets, vec![vec![pl(2, 2)], vec![pl(3, 2)]]);
    assert!(find_placements_at(&vec![2], 5, 4, &HashMap::new()).is_empty());
    assert!(find_placements_at(&vec![1], 255, 300, &HashMap::new()).is_empty());
    assert_eq!(
        find_placements_at(&vec![], 5, 300, &HashMap::new()),
        vec![Vec::<Placement>::new()]
    );
}

#[test]
fn placements_from_an_offset_skip_empty_cells_only() {
    let mut givens = HashMap::new();
    givens.insert(3, CellState::Empty);
    givens.insert(0, CellState::Filled);
    let sets = find_placements_at(&vec![1], 6, 1, &givens);
    assert_eq!(offsets(&sets), vec![vec![1], vec![2], vec![4], vec![5]]);
}

#[test]
fn valid_set_accepted() {
    let mut givens = HashMap::new();
    givens.insert(0, CellState::Filled);
    givens.insert(2, CellState::Empty);
    givens.insert(4, CellState::Filled);
    givens.insert(5, CellState::Unknown);
    assert!(placements_valid(&vec![pl(0, 2), pl(3, 3)], &givens));
}

#[test]
fn set_over_empty_cell_rejected() {
    let mut givens = HashMap::new();
    givens.insert(2, CellState::Empty);
    assert!(!placements_valid(&vec![pl(1, 2)], &givens));
    assert!(placements_valid(&vec![pl(0, 2)], &givens));
}

#[test]
fn set_missing_filled_cell_rejected() {
    let mut givens = HashMap::new();
    givens.insert(7, CellState::Filled);
    assert!(!placements_valid(&vec![pl(0, 2), pl(3, 3)], &givens));
    assert!(placements_valid(&vec![pl(0, 2), pl(5, 3)], &givens));
}

#[test]
fn empty_set_valid_without_filled_cells() {
    assert!(placements_valid(&vec![], &HashMap::new()));
    let mut givens = HashMap::new();
    givens.insert(1, CellState::Filled);
    assert!(!placements_valid(&vec![], &givens));
}
