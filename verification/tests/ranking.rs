use vector_db::ranking::rank;
use vector_db::similarity::Similarity;

fn fixed(values: &[f64]) -> Vec<Similarity> {
    values.iter().map(|x| Similarity::from_bits(x.to_bits())).collect()
}

fn score(x: f64) -> Similarity {
    Similarity::from_bits(x.to_bits())
}

#[test]
fn no_scores_rank_to_nothing() {
    assert_eq!(rank(&Vec::new(), score(0.0)), Vec::<usize>::new());
}

#[test]
fn a_single_score_is_ranked_if_it_matches() {
    assert_eq!(rank(&fixed(&[0.5]), score(0.5)), vec![0]);
    assert_eq!(rank(&fixed(&[0.5]), score(0.6)), Vec::<usize>::new());
}

#[test]
fn positions_are_ranked_by_falling_score() {
    assert_eq!(rank(&fixed(&[0.1, 0.9, 0.5, 0.7, 0.3]), score(0.0)), vec![1, 3, 2, 4, 0]);
    assert_eq!(rank(&fixed(&[0.1, 0.9, 0.5, 0.7, 0.3]), score(0.4)), vec![1, 3, 2]);
    assert_eq!(rank(&fixed(&[0.1, 0.2, 0.3, 0.4]), score(0.0)), vec![3, 2, 1, 0]);
    assert_eq!(rank(&fixed(&[0.4, 0.3, 0.2, 0.1]), score(0.0)), vec![0, 1, 2, 3]);
}

#[test]
fn equal_scores_keep_their_order() {
    assert_eq!(rank(&fixed(&[0.5, 0.5, 0.5, 0.5]), score(0.5)), vec![0, 1, 2, 3]);
    assert_eq!(rank(&fixed(&[0.5, 0.9, 0.5, 0.9, 0.5]), score(0.0)), vec![1, 3, 0, 2, 4]);
    assert_eq!(rank(&fixed(&[0.0, -0.0, 0.0]), score(0.0)), vec![0, 1, 2]);
}

#[test]
fn a_long_list_is_ranked_as_a_stable_sort_ranks_it() {
    let mut seed: u64 = 0x2545_F491_4F6C_DD1D;
    let mut values = Vec::new();
    for _ in 0..5000 {
        seed ^= seed << 13;
        seed ^= seed >> 7;
        seed ^= seed << 17;
        values.push(((seed % 201) as f64 - 100.0) / 100.0);
    }
    let threshold = -0.25;
    let mut expected: Vec<usize> = (0..values.len()).filter(|i| values[*i] >= threshold).collect();
    expected.sort_by(|a, b| values[*b].partial_cmp(&values[*a]).unwrap());
    assert_eq!(rank(&fixed(&values), score(threshold)), expected);
}
