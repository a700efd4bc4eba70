use vector_db::index::{Hit, IndexError, VectorIndex};
use vector_db::snapshot::SnapshotNode;
use vector_db::similarity::Similarity;

fn bits(components: &[f64]) -> Vec<u64> {
    components.iter().map(|x| x.to_bits()).collect()
}

fn score(x: f64) -> Similarity {
    Similarity::from_bits(x.to_bits())
}

fn cosine(a: &[u64], b: &[u64]) -> f64 {
    let mut dot = 0.0;
    let mut aa = 0.0;
    let mut bb = 0.0;
    for (x, y) in a.iter().zip(b.iter()) {
        let x = f64::from_bits(*x);
        let y = f64::from_bits(*y);
        dot += x * y;
        aa += x * x;
        bb += y * y;
    }
    dot / (aa * bb).sqrt()
}

fn scores(index: &VectorIndex, query: &[u64]) -> Vec<Similarity> {
    index
        .entries()
        .iter()
        .map(|entry| Similarity::from_bits(cosine(entry.embedding(), query).to_bits()))
        .collect()
}

fn fixed(values: &[f64]) -> Vec<Similarity> {
    values.iter().map(|x| score(*x)).collect()
}

fn hit(similarity: f64, label: &str, tally: u32) -> Hit {
    (score(similarity), label.to_string(), tally)
}

fn leaf(id: u64, embedding: &[f64], label: &str, tally: u32) -> SnapshotNode {
    SnapshotNode { id, embedding: bits(embedding), label: label.to_string(), tally, children: Vec::new() }
}

fn root(children: Vec<SnapshotNode>) -> SnapshotNode {
    SnapshotNode { id: 0, embedding: Vec::new(), label: String::new(), tally: 0, children }
}

fn tallies(index: &VectorIndex) -> Vec<u32> {
    index.entries().iter().map(|entry| entry.tally()).collect()
}

#[test]
fn a_new_index_is_empty() {
    let index = VectorIndex::new();
    assert_eq!(index.len(), 0);
    assert_eq!(index.dimension(), None);
    assert!(index.entries().is_empty());
}

#[test]
fn search_of_an_empty_index_finds_nothing() {
    let mut index = VectorIndex::new();
    let query = bits(&[0.1, 0.2, 0.3]);
    let found = index.search(score(0.0), 5, &query, &Vec::new());
    assert_eq!(found, Ok(Vec::new()));
    assert_eq!(index.len(), 0);
}

#[test]
fn ids_grow_from_one() {
    let mut index = VectorIndex::new();
    assert_eq!(index.add(bits(&[1.0, 0.0]), "a".to_string()), Ok(1));
    assert_eq!(index.add(bits(&[0.0, 1.0]), "b".to_string()), Ok(2));
    assert_eq!(index.add(bits(&[1.0, 1.0]), "c".to_string()), Ok(3));
    assert_eq!(index.len(), 3);
    assert_eq!(index.dimension(), Some(2));
    let entries = index.entries();
    assert_eq!(entries[0].id(), 1);
    assert_eq!(entries[1].id(), 2);
    assert_eq!(entries[2].id(), 3);
    assert_eq!(entries[1].label(), "b");
    assert_eq!(entries[1].embedding(), &bits(&[0.0, 1.0]));
    assert_eq!(entries[1].tally(), 0);
}

#[test]
fn an_embedding_of_another_length_is_refused() {
    let mut index = VectorIndex::new();
    assert_eq!(index.add(bits(&[1.0, 0.0]), "a".to_string()), Ok(1));
    assert_eq!(index.add(bits(&[1.0, 0.0, 0.0]), "b".to_string()), Err(IndexError::DimensionMismatch));
    assert_eq!(index.add(bits(&[]), "c".to_string()), Err(IndexError::DimensionMismatch));
    assert_eq!(index.len(), 1);
    assert_eq!(index.add(bits(&[0.0, 1.0]), "d".to_string()), Ok(2));
}

#[test]
fn the_last_id_cannot_be_followed() {
    let snapshot = root(vec![leaf(u64::MAX, &[1.0], "last", 0)]);
    let mut index = VectorIndex::load(&snapshot).unwrap();
    assert_eq!(index.add(bits(&[1.0]), "more".to_string()), Err(IndexError::IdsExhausted));
    assert_eq!(index.add(bits(&[1.0, 2.0]), "more".to_string()), Err(IndexError::DimensionMismatch));
    assert_eq!(index.len(), 1);
}

#[test]
fn an_add_leaves_the_tallies_alone() {
    let mut index = VectorIndex::new();
    index.add(bits(&[1.0, 0.0]), "a".to_string()).unwrap();
    index.add(bits(&[0.0, 1.0]), "b".to_string()).unwrap();
    index.search(score(0.5), 10, &bits(&[1.0, 0.0]), &fixed(&[1.0, 0.0])).unwrap();
    index.search(score(0.5), 10, &bits(&[1.0, 0.0]), &fixed(&[1.0, 0.0])).unwrap();
    assert_eq!(tallies(&index), vec![2, 0]);
    index.add(bits(&[1.0, 1.0]), "c".to_string()).unwrap();
    assert_eq!(tallies(&index), vec![2, 0, 0]);
}

#[test]
fn an_added_entry_is_found_again() {
    let mut index = VectorIndex::new();
    let hello = bits(&[0.25, -0.5, 0.75]);
    assert_eq!(index.add(hello.clone(), "http://a".to_string()), Ok(1));
    let scored = scores(&index, &hello);
    let found = index.search(score(0.99), 1, &hello, &scored).unwrap();
    assert_eq!(found, vec![hit(1.0, "http://a", 1)]);
    assert_eq!(f64::from_bits(found[0].0.to_bits()), 1.0);
    assert_eq!(index.entries()[0].tally(), 1);
}

#[test]
fn only_the_exact_match_passes_the_threshold() {
    let mut index = VectorIndex::new();
    let first = bits(&[1.0, 0.0]);
    let second = bits(&[1.0, 3.0f64.sqrt()]);
    assert!((cosine(&first, &second) - 0.5).abs() < 1e-12);
    index.add(first.clone(), "first".to_string()).unwrap();
    index.add(second.clone(), "second".to_string()).unwrap();
    let scored = scores(&index, &first);
    let found = index.search(score(0.6), 10, &first, &scored).unwrap();
    assert_eq!(found, vec![hit(1.0, "first", 1)]);
    assert_eq!(tallies(&index), vec![1, 0]);
    let scored = scores(&index, &second);
    let found = index.search(score(0.6), 10, &second, &scored).unwrap();
    assert_eq!(found.len(), 1);
    assert_eq!(found[0].1, "second");
    assert_eq!(found[0].2, 1);
    assert_eq!(tallies(&index), vec![1, 1]);
}

#[test]
fn results_fall_by_score_and_ties_keep_the_order_of_adding() {
    let mut index = VectorIndex::new();
    for (i, label) in ["a", "b", "c", "d", "e", "f"].iter().enumerate() {
        index.add(bits(&[i as f64 + 2.0]), label.to_string()).unwrap();
    }
    let scored = fixed(&[0.5, 0.9, 0.5, 0.1, 0.9, 0.7]);
    let found = index.search(score(0.2), 10, &bits(&[1.0]), &scored).unwrap();
    assert_eq!(
        found,
        vec![hit(0.9, "b", 1), hit(0.9, "e", 1), hit(0.7, "f", 1), hit(0.5, "a", 1), hit(0.5, "c", 1)]
    );
    assert_eq!(tallies(&index), vec![1, 1, 1, 0, 1, 1]);
}

#[test]
fn a_score_at_the_threshold_is_a_match() {
    let mut index = VectorIndex::new();
    index.add(bits(&[2.0]), "a".to_string()).unwrap();
    index.add(bits(&[3.0]), "b".to_string()).unwrap();
    let found = index.search(score(0.5), 10, &bits(&[1.0]), &fixed(&[0.5, 0.4999999])).unwrap();
    assert_eq!(found, vec![hit(0.5, "a", 1)]);
}

#[test]
fn negative_scores_rank_below_zero() {
    let mut index = VectorIndex::new();
    for (i, label) in ["a", "b", "c", "d"].iter().enumerate() {
        index.add(bits(&[i as f64 + 2.0]), label.to_string()).unwrap();
    }
    let scored = fixed(&[-1.0, 0.0, -0.25, 0.25]);
    let found = index.search(score(-0.5), 10, &bits(&[1.0]), &scored).unwrap();
    assert_eq!(found, vec![hit(0.25, "d", 1), hit(0.0, "b", 1), hit(-0.25, "c", 1)]);
}

#[test]
fn results_are_cut_to_max_results_but_every_match_is_counted() {
    let mut index = VectorIndex::new();
    for (i, label) in ["a", "b", "c", "d"].iter().enumerate() {
        index.add(bits(&[i as f64 + 2.0]), label.to_string()).unwrap();
    }
    let scored = fixed(&[0.3, 0.8, 0.1, 0.6]);
    let found = index.search(score(0.2), 2, &bits(&[1.0]), &scored).unwrap();
    assert_eq!(found, vec![hit(0.8, "b", 1), hit(0.6, "d", 1)]);
    assert_eq!(tallies(&index), vec![1, 1, 0, 1]);
    let found = index.search(score(0.2), 0, &bits(&[1.0]), &scored).unwrap();
    assert_eq!(found, Vec::new());
    assert_eq!(tallies(&index), vec![2, 2, 0, 2]);
}

#[test]
fn tallies_never_fall_across_searches() {
    let mut index = VectorIndex::new();
    for (i, label) in ["a", "b", "c"].iter().enumerate() {
        index.add(bits(&[i as f64 + 2.0]), label.to_string()).unwrap();
    }
    let rounds = [[0.9, 0.1, 0.5], [0.1, 0.1, 0.1], [0.6, 0.7, 0.2], [1.0, 1.0, 1.0]];
    let mut before = tallies(&index);
    for round in rounds {
        index.search(score(0.5), 1, &bits(&[1.0]), &fixed(&round)).unwrap();
        let after = tallies(&index);
        for (old, new) in before.iter().zip(after.iter()) {
            assert!(new >= old);
        }
        before = after;
    }
    assert_eq!(before, vec![3, 2, 2]);
}

#[test]
fn a_full_tally_stays_full() {
    let snapshot = root(vec![leaf(1, &[2.0], "a", u32::MAX), leaf(2, &[3.0], "b", u32::MAX - 1)]);
    let mut index = VectorIndex::load(&snapshot).unwrap();
    let found = index.search(score(0.0), 5, &bits(&[1.0]), &fixed(&[1.0, 0.5])).unwrap();
    assert_eq!(found, vec![hit(1.0, "a", u32::MAX), hit(0.5, "b", u32::MAX)]);
    assert_eq!(tallies(&index), vec![u32::MAX, u32::MAX]);
}

#[test]
fn a_score_that_is_no_number_counts_as_zero() {
    let mut index = VectorIndex::new();
    index.add(bits(&[0.0, 0.0]), "null".to_string()).unwrap();
    index.add(bits(&[1.0, 0.0]), "unit".to_string()).unwrap();
    let query = bits(&[1.0, 0.0]);
    let scored = scores(&index, &query);
    let found = index.search(score(0.0), 5, &query, &scored).unwrap();
    assert_eq!(found, vec![hit(1.0, "unit", 1), hit(0.0, "null", 1)]);
    let found = index.search(score(0.1), 5, &query, &scored).unwrap();
    assert_eq!(found, vec![hit(1.0, "unit", 2)]);
}

#[test]
fn a_query_of_another_length_is_refused() {
    let mut index = VectorIndex::new();
    index.add(bits(&[1.0, 0.0]), "a".to_string()).unwrap();
    let found = index.search(score(0.0), 5, &bits(&[1.0]), &fixed(&[1.0]));
    assert_eq!(found, Err(IndexError::DimensionMismatch));
    let found = index.search(score(0.0), 5, &bits(&[1.0]), &fixed(&[]));
    assert_eq!(found, Err(IndexError::DimensionMismatch));
    assert_eq!(tallies(&index), vec![0]);
}

#[test]
fn scores_must_cover_the_entries() {
    let mut index = VectorIndex::new();
    index.add(bits(&[1.0, 0.0]), "a".to_string()).unwrap();
    index.add(bits(&[1.0, 0.0]), "b".to_string()).unwrap();
    let query = bits(&[1.0, 0.0]);
    assert_eq!(index.search(score(0.0), 5, &query, &fixed(&[1.0])), Err(IndexError::ScoreCountMismatch));
    assert_eq!(
        index.search(score(0.0), 5, &query, &fixed(&[1.0, 1.0, 1.0])),
        Err(IndexError::ScoreCountMismatch)
    );
    assert_eq!(tallies(&index), vec![0, 0]);
    let mut empty = VectorIndex::new();
    assert_eq!(empty.search(score(0.0), 5, &query, &fixed(&[1.0])), Err(IndexError::ScoreCountMismatch));
}

#[test]
fn the_snapshot_of_an_empty_index_is_the_bare_root() {
    assert_eq!(VectorIndex::new().snapshot(), root(Vec::new()));
}

#[test]
fn a_snapshot_lists_every_entry_under_the_root() {
    let mut index = VectorIndex::new();
    index.add(bits(&[1.0, 0.0]), "a".to_string()).unwrap();
    index.add(bits(&[0.0, 1.0]), "b".to_string()).unwrap();
    index.search(score(0.5), 10, &bits(&[0.0, 1.0]), &fixed(&[0.0, 1.0])).unwrap();
    assert_eq!(
        index.snapshot(),
        root(vec![leaf(1, &[1.0, 0.0], "a", 0), leaf(2, &[0.0, 1.0], "b", 1)])
    );
}

#[test]
fn loading_a_snapshot_gives_the_index_back() {
    let mut index = VectorIndex::new();
    index.add(bits(&[1.0, 0.0]), "a".to_string()).unwrap();
    index.add(bits(&[0.0, 1.0]), "b".to_string()).unwrap();
    index.add(bits(&[0.5, 0.5]), "c".to_string()).unwrap();
    index.search(score(0.5), 10, &bits(&[0.0, 1.0]), &fixed(&[0.0, 1.0, 0.7])).unwrap();
    index.search(score(0.5), 10, &bits(&[0.0, 1.0]), &fixed(&[0.0, 1.0, 0.2])).unwrap();
    let loaded = VectorIndex::load(&index.snapshot()).unwrap();
    assert_eq!(loaded, index);
    assert_eq!(tallies(&loaded), vec![0, 2, 1]);
    assert_eq!(loaded.snapshot(), index.snapshot());
    let empty = VectorIndex::new();
    assert_eq!(VectorIndex::load(&empty.snapshot()).unwrap(), empty);
}

#[test]
fn ids_go_on_after_a_load() {
    let snapshot = root(vec![leaf(3, &[1.0], "a", 4), leaf(7, &[2.0], "b", 0)]);
    let mut index = VectorIndex::load(&snapshot).unwrap();
    assert_eq!(index.add(bits(&[3.0]), "c".to_string()), Ok(8));
    assert_eq!(tallies(&index), vec![4, 0, 0]);
}

#[test]
fn a_malformed_snapshot_is_refused() {
    let malformed = |snapshot: SnapshotNode| {
        assert_eq!(VectorIndex::load(&snapshot), Err(IndexError::MalformedSnapshot));
    };
    let mut wrong_root = root(Vec::new());
    wrong_root.id = 1;
    malformed(wrong_root);
    let mut wrong_root = root(Vec::new());
    wrong_root.label = "x".to_string();
    malformed(wrong_root);
    let mut wrong_root = root(Vec::new());
    wrong_root.embedding = bits(&[1.0]);
    malformed(wrong_root);
    malformed(root(vec![leaf(0, &[1.0], "a", 0)]));
    malformed(root(vec![leaf(1, &[1.0], "a", 0), leaf(1, &[1.0], "b", 0)]));
    malformed(root(vec![leaf(2, &[1.0], "a", 0), leaf(1, &[1.0], "b", 0)]));
    malformed(root(vec![leaf(1, &[1.0], "a", 0), leaf(2, &[1.0, 2.0], "b", 0)]));
    let mut nested = leaf(1, &[1.0], "a", 0);
    nested.children.push(leaf(2, &[1.0], "b", 0));
    malformed(root(vec![nested]));
}

#[test]
fn the_root_tally_of_a_snapshot_does_not_matter() {
    let mut snapshot = root(vec![leaf(1, &[1.0], "a", 2)]);
    snapshot.tally = 9;
    let index = VectorIndex::load(&snapshot).unwrap();
    assert_eq!(tallies(&index), vec![2]);
}

#[test]
fn the_start_is_the_snapshot_or_an_empty_index() {
    let snapshot = root(vec![leaf(1, &[1.0], "a", 2)]);
    assert_eq!(VectorIndex::load_or_new(Some(&snapshot)).len(), 1);
    assert_eq!(VectorIndex::load_or_new(None), VectorIndex::new());
    let malformed = root(vec![leaf(0, &[1.0], "a", 2)]);
    assert_eq!(VectorIndex::load_or_new(Some(&malformed)), VectorIndex::new());
}

#[test]
fn an_entry_without_magnitude_scores_zero_whatever_is_handed_in() {
    let mut index = VectorIndex::new();
    index.add(bits(&[0.0, -0.0]), "null".to_string()).unwrap();
    index.add(bits(&[1.0, 0.0]), "unit".to_string()).unwrap();
    let query = bits(&[2.0, 1.0]);
    let found = index.search(score(0.0), 5, &query, &fixed(&[0.9, 0.8])).unwrap();
    assert_eq!(found, vec![hit(0.8, "unit", 1), hit(0.0, "null", 1)]);
    let found = index.search(score(0.5), 5, &query, &fixed(&[0.9, 0.8])).unwrap();
    assert_eq!(found, vec![hit(0.8, "unit", 2)]);
    assert_eq!(tallies(&index), vec![1, 2]);
}

#[test]
fn a_query_without_magnitude_scores_zero_against_every_entry() {
    let mut index = VectorIndex::new();
    index.add(bits(&[0.0, 1.0]), "a".to_string()).unwrap();
    index.add(bits(&[1.0, 0.0]), "b".to_string()).unwrap();
    let query = bits(&[0.0, 0.0]);
    let found = index.search(score(0.0), 5, &query, &fixed(&[0.3, 0.7])).unwrap();
    assert_eq!(found, vec![hit(0.0, "a", 1), hit(0.0, "b", 1)]);
    let found = index.search(score(0.1), 5, &query, &fixed(&[0.3, 0.7])).unwrap();
    assert_eq!(found, Vec::new());
    let found = index.search(score(-1.0), 1, &bits(&[-0.0, 0.0]), &fixed(&[-0.3, -0.7])).unwrap();
    assert_eq!(found, vec![hit(0.0, "a", 2)]);
    assert_eq!(tallies(&index), vec![2, 2]);
}

#[test]
fn a_tiny_component_is_not_a_zero() {
    let mut index = VectorIndex::new();
    index.add(bits(&[0.0, f64::MIN_POSITIVE]), "tiny".to_string()).unwrap();
    let found = index.search(score(0.5), 5, &bits(&[0.0, 1.0]), &fixed(&[1.0])).unwrap();
    assert_eq!(found, vec![hit(1.0, "tiny", 1)]);
}

#[test]
fn an_entry_that_is_the_query_scores_one_whatever_is_handed_in() {
    let mut index = VectorIndex::new();
    index.add(bits(&[0.3, -0.0, 0.7]), "same".to_string()).unwrap();
    index.add(bits(&[0.3, 0.1, 0.7]), "near".to_string()).unwrap();
    let query = bits(&[0.3, 0.0, 0.7]);
    let found = index.search(score(0.0), 5, &query, &fixed(&[0.9999999999999998, 0.99])).unwrap();
    assert_eq!(found, vec![hit(1.0, "same", 1), hit(0.99, "near", 1)]);
    let found = index.search(score(1.0), 5, &query, &fixed(&[0.2, 0.99])).unwrap();
    assert_eq!(found, vec![hit(1.0, "same", 2)]);
}

#[test]
fn a_vector_that_is_no_finite_number_is_not_taken_for_the_query() {
    let mut index = VectorIndex::new();
    index.add(bits(&[f64::INFINITY, 1.0]), "far".to_string()).unwrap();
    index.add(bits(&[f64::NAN, 1.0]), "none".to_string()).unwrap();
    let found = index
        .search(score(-1.0), 5, &bits(&[f64::INFINITY, 1.0]), &fixed(&[f64::NAN, 0.5]))
        .unwrap();
    assert_eq!(found, vec![hit(0.5, "none", 1), hit(0.0, "far", 1)]);
    let found = index.search(score(-1.0), 5, &bits(&[f64::NAN, 1.0]), &fixed(&[0.25, 0.5])).unwrap();
    assert_eq!(found, vec![hit(0.5, "none", 2), hit(0.25, "far", 2)]);
}

#[test]
fn a_score_beyond_one_is_brought_back_to_one() {
    let mut index = VectorIndex::new();
    index.add(bits(&[1.0, 2.0]), "a".to_string()).unwrap();
    index.add(bits(&[2.0, 1.0]), "b".to_string()).unwrap();
    index.add(bits(&[3.0, 1.0]), "c".to_string()).unwrap();
    let query = bits(&[1.0, 1.0]);
    let handed = fixed(&[1.0000000000000002, -1.5, f64::INFINITY]);
    let found = index.search(score(-2.0), 5, &query, &handed).unwrap();
    assert_eq!(found, vec![hit(1.0, "a", 1), hit(1.0, "c", 1), hit(-1.0, "b", 1)]);
    let found = index.search(score(1.0000000000000002), 5, &query, &handed).unwrap();
    assert_eq!(found, Vec::new());
}
