use vnns::scorer::{compute_best_sample, score_dot, score_squared_euclidean, Metric};
use vnns::tournament::{iterative_similarity_search, tournament_round, tournament_round_count};
use vnns::SearchError;

fn six_samples() -> Vec<Vec<i32>> {
    vec![
        vec![10, 20, 30],
        vec![40, 50, 60],
        vec![70, 80, 90],
        vec![10, 11, 12],
        vec![13, 14, 15],
        vec![16, 17, 18],
    ]
}

#[test]
fn test_compute_best_sample() {
    let samples = vec![
        vec![101, 201, 301],
        vec![401, 501, 601],
        vec![700, 800, 900],
    ];
    let query = vec![100, 200, 300];
    assert_eq!(
        compute_best_sample(&samples, &query, Metric::SquaredEuclidean).unwrap(),
        0
    );
}

#[test]
fn test_iterative_similarity_search() {
    let samples = six_samples();
    let query = vec![99, 99, 99];
    let (idx, winner) =
        iterative_similarity_search(samples, query, 2, Metric::SquaredEuclidean).unwrap();
    assert_eq!(idx, 2);
    assert_eq!(winner, vec![70, 80, 90]);
}

#[test]
fn scenario_euclidean_exact_match() {
    let samples = vec![vec![1, 2, 3], vec![4, 5, 6], vec![7, 8, 9]];
    let query = vec![1, 2, 3];
    let best = compute_best_sample(&samples, &query, Metric::SquaredEuclidean).unwrap();
    assert_eq!(best, 0);
    assert_eq!(score_squared_euclidean(&samples[0], &query), 0);
}

#[test]
fn scenario_dot_product_tournament_matches_brute_force() {
    let samples = six_samples();
    let query = vec![99, 99, 99];
    let brute = compute_best_sample(&samples, &query, Metric::DotProduct).unwrap();
    let (idx, winner) =
        iterative_similarity_search(six_samples(), query, 2, Metric::DotProduct).unwrap();
    assert_eq!(idx, brute);
    assert_eq!(idx, 2);
    assert_eq!(winner, samples[brute]);
}

#[test]
fn tournament_winner_equals_brute_force_euclidean() {
    let samples = six_samples();
    let query = vec![12, 13, 14];
    for batch in 2..7usize {
        let brute = compute_best_sample(&samples, &query, Metric::SquaredEuclidean).unwrap();
        let (idx, winner) =
            iterative_similarity_search(samples.clone(), query.clone(), batch, Metric::SquaredEuclidean)
                .unwrap();
        assert_eq!(idx, brute);
        assert_eq!(winner, samples[brute]);
    }
}

#[test]
fn repeated_runs_agree() {
    let query = vec![99, 99, 99];
    let first =
        iterative_similarity_search(six_samples(), query.clone(), 2, Metric::DotProduct).unwrap();
    let second =
        iterative_similarity_search(six_samples(), query, 2, Metric::DotProduct).unwrap();
    assert_eq!(first, second);
}

#[test]
fn ties_lowest_index_wins() {
    let samples = vec![vec![5, 5], vec![5, 5], vec![1, 1]];
    let query = vec![5, 5];
    assert_eq!(
        compute_best_sample(&samples, &query, Metric::SquaredEuclidean).unwrap(),
        0
    );
    let dot_samples = vec![vec![3, 0], vec![0, 3], vec![0, 0]];
    let dot_query = vec![1, 1];
    assert_eq!(
        compute_best_sample(&dot_samples, &dot_query, Metric::DotProduct).unwrap(),
        0
    );
}

#[test]
fn empty_input_is_rejected() {
    let samples: Vec<Vec<i32>> = Vec::new();
    let query = vec![1, 2];
    assert_eq!(
        compute_best_sample(&samples, &query, Metric::SquaredEuclidean),
        Err(SearchError::EmptyInput)
    );
    assert_eq!(
        iterative_similarity_search(samples, query, 2, Metric::SquaredEuclidean),
        Err(SearchError::EmptyInput)
    );
}

#[test]
fn dimension_mismatch_names_first_offender() {
    let samples = vec![vec![1, 2], vec![1, 2, 3], vec![4]];
    let query = vec![1, 2];
    assert_eq!(
        compute_best_sample(&samples, &query, Metric::SquaredEuclidean),
        Err(SearchError::DimensionMismatch { index: 1 })
    );
    assert_eq!(
        iterative_similarity_search(samples, query, 3, Metric::SquaredEuclidean),
        Err(SearchError::DimensionMismatch { index: 1 })
    );
}

#[test]
fn round_counts_are_ceiling_logs() {
    assert_eq!(tournament_round_count(3, 3), 1);
    assert_eq!(tournament_round_count(1, 5), 1);
    assert_eq!(tournament_round_count(4, 3), 2);
    assert_eq!(tournament_round_count(6, 2), 3);
    assert_eq!(tournament_round_count(9, 3), 2);
    assert_eq!(tournament_round_count(10, 3), 3);
}

#[test]
fn one_round_reports_each_chunk_winner() {
    let samples = six_samples();
    let query = vec![99, 99, 99];
    let winners = tournament_round(&samples, &query, Metric::DotProduct, 2).unwrap();
    assert_eq!(winners, vec![1, 2, 5]);
    let empty: Vec<Vec<i32>> = Vec::new();
    assert_eq!(
        tournament_round(&empty, &query, Metric::DotProduct, 2),
        Err(SearchError::EmptyInput)
    );
}

#[test]
fn dot_product_scores_are_exact() {
    let a = vec![3, -2, 1];
    let q = vec![2, 2, 2];
    assert_eq!(score_dot(&a, &q), 4);
    assert_eq!(score_squared_euclidean(&a, &q), 1 + 16 + 1);
}
