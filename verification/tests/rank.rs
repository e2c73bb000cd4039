use clipvault::rank::rank;

#[test]
fn best_score_first_and_ties_in_order() {
    let scores = vec![Some(3), None, Some(7), Some(3), Some(-2), Some(7), None];
    assert_eq!(rank(&scores), [2, 5, 0, 3, 4]);
    assert!(rank(&Vec::new()).is_empty());
    assert!(rank(&vec![None, None]).is_empty());
}

#[test]
fn ranking_agrees_with_a_sort() {
    let scores: Vec<Option<i32>> = (0..500)
        .map(|i: i32| if i % 7 == 0 { None } else { Some((i * 37) % 23 - 11) })
        .collect();
    let mut pairs: Vec<(i32, usize)> = scores
        .iter()
        .enumerate()
        .filter_map(|(i, s)| s.map(|s| (-s, i)))
        .collect();
    pairs.sort();
    let expected: Vec<usize> = pairs.into_iter().map(|p| p.1).collect();
    assert_eq!(rank(&scores), expected);
}
