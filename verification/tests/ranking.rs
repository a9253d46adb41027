use friz::matching::MatchIndices;
use friz::ranking::rank;

fn entry(score: u16, index: u32) -> MatchIndices {
    MatchIndices { index, score, indices: vec![index as usize], exact: true }
}

#[test]
fn the_highest_score_comes_first_and_then_the_first_line() {
    let ordered = rank(vec![entry(5, 2), entry(9, 8), entry(5, 0), entry(9, 3), entry(1, 1)]);
    let keys: Vec<(u16, u32)> = ordered.iter().map(|m| (m.score, m.index)).collect();
    assert_eq!(keys, vec![(9, 3), (9, 8), (5, 0), (5, 2), (1, 1)]);
    assert!(ordered.iter().all(|m| m.indices == vec![m.index as usize]));
}

#[test]
fn few_matches_are_in_order() {
    assert!(rank(vec![]).is_empty());
    assert_eq!(rank(vec![entry(1, 1)]), vec![entry(1, 1)]);
}

#[test]
fn many_matches_come_out_in_the_order_of_a_sort() {
    let mut state: u32 = 1;
    let mut entries: Vec<MatchIndices> = Vec::new();
    for index in 0..5000 {
        state = state.wrapping_mul(1_664_525).wrapping_add(1_013_904_223);
        entries.push(entry((state >> 24) as u16, index));
    }
    let mut expected = entries.clone();
    expected.sort_by_key(|m| (u16::MAX - m.score, m.index));
    entries.reverse();
    assert_eq!(rank(entries), expected);
}
