use cluster::{
    assign_stragglers, centroids, check_separation, cluster_massive, cluster_no_splitting,
    cluster_no_splitting_view, cluster_using_ndarray, cluster_using_ndarray_batched,
    cluster_using_ndarray_batched_unique_on_the_go, cluster_using_ndarray_low_memory,
    clustered_document_indexes, count_docs_in_clusters, count_scores_over_threshold,
    dot_product, get_embeddings, idx_over_threshold, merge_clusters, merge_community, normalize,
    normalize_all_inplace, phatic_by_word_count, tsne_perplexity, push_clusters, similarity_window, sort_by_size, unique_clusters,
    vectors_to_array, ClusterError, Clusters, Community, Config, CHUNK_SIZE, MIN_CLUSTER_SIZE,
    MIN_SIMILARITY, SIMILARITY_ONE, UNIT,
};

fn fixed(v: &[f64]) -> Vec<i32> {
    v.iter().map(|x| (x * UNIT as f64).round() as i32).collect()
}

fn as_real(v: &[i32]) -> Vec<f64> {
    v.iter().map(|x| *x as f64 / UNIT as f64).collect()
}

fn score(x: f64) -> i128 {
    (x * SIMILARITY_ONE as f64).round() as i128
}

fn close(a: &[f64], b: &[f64]) -> bool {
    a.len() == b.len() && a.iter().zip(b).all(|(a, b)| (a - b).abs() < 0.0001)
}

fn unit_rows(rows: &[Vec<f64>]) -> Vec<Vec<i32>> {
    normalize_all_inplace(rows.iter().map(|r| fixed(r)).collect())
}

/// Six vectors close to one direction, pairwise similarity above 0.95.
fn tight_group(axis: usize, dim: usize) -> Vec<Vec<f64>> {
    (0..6)
        .map(|k| {
            let mut v = vec![0.0; dim];
            v[axis] = 1.0;
            v[(axis + 1) % dim] = 0.02 * k as f64;
            v[(axis + 2) % dim] = 0.01 * (5 - k) as f64;
            v
        })
        .collect()
}

fn config(chunk: usize) -> Config {
    Config::new(MIN_SIMILARITY, MIN_CLUSTER_SIZE, chunk).unwrap()
}

fn member_sets(c: &Clusters) -> Vec<Vec<usize>> {
    let mut s: Vec<Vec<usize>> = c
        .iter()
        .map(|(_, m)| {
            let mut m = m.clone();
            m.sort();
            m
        })
        .collect();
    s.sort();
    s
}

#[test]
fn test_it_can_count_scores_over_threshold() {
    let a: Vec<i128> = [1.0, 0.0, 0.1, 2.0, 0.2, 0.0, 0.0].iter().map(|x| score(*x)).collect();
    assert_eq!(2, count_scores_over_threshold(&a, MIN_SIMILARITY));

    let a: Vec<i128> = vec![];
    assert_eq!(0, count_scores_over_threshold(&a, MIN_SIMILARITY));

    let a: Vec<i128> = [0.0, 0.0, 0.1].iter().map(|x| score(*x)).collect();
    assert_eq!(0, count_scores_over_threshold(&a, MIN_SIMILARITY));
}

#[test]
fn test_it_can_collect_idx_over_threshold() {
    let a: Vec<i128> = vec![];
    assert_eq!(Vec::<usize>::new(), idx_over_threshold(&a, MIN_SIMILARITY));

    let a: Vec<i128> = [0.0, 0.0, 0.1].iter().map(|x| score(*x)).collect();
    assert_eq!(Vec::<usize>::new(), idx_over_threshold(&a, MIN_SIMILARITY));

    let a: Vec<i128> = [1.0, 0.0, 0.1, 2.0, 0.2, 0.0, 0.0].iter().map(|x| score(*x)).collect();
    assert_eq!(vec![0 as usize, 3 as usize], idx_over_threshold(&a, MIN_SIMILARITY));
}

#[test]
fn test_it_can_normalize_vectors() {
    let input = vec![fixed(&[0.4, 1.0, -0.3]), fixed(&[0.2, 0.1, -0.1])];

    let norm = normalize_all_inplace(input);

    let expect = vec![
        vec![0.3577708763, 0.8944271908, -0.2683281572],
        vec![0.8164965809, 0.4082482904, -0.4082482904],
    ];

    assert!(close(&expect[0], &as_real(&norm[0])));
    assert!(close(&expect[1], &as_real(&norm[1])));

    let norm2 = normalize_all_inplace(norm);

    assert!(close(&expect[0], &as_real(&norm2[0])));
    assert!(close(&expect[1], &as_real(&norm2[1])));
}

#[test]
fn threshold_is_strict() {
    let t = MIN_SIMILARITY as i128;
    let row = vec![t, t + 1, t - 1, SIMILARITY_ONE as i128];
    assert_eq!(2, count_scores_over_threshold(&row, MIN_SIMILARITY));
    assert_eq!(vec![1, 3], idx_over_threshold(&row, MIN_SIMILARITY));
}

#[test]
fn zero_vector_stays_zero() {
    assert_eq!(vec![0, 0, 0], normalize(&vec![0, 0, 0]));
}

#[test]
fn unit_vector_is_unchanged() {
    let v = vec![UNIT, 0, 0];
    assert_eq!(v, normalize(&v));
    let w = vec![0, -UNIT];
    assert_eq!(w, normalize(&w));
}

#[test]
fn normalizing_scales_to_unit_length() {
    let v = normalize(&vec![3, 4]);
    assert_eq!(vec![10066329, 13421772], v);
    let long = unit_rows(&[vec![0.1; 384]]);
    let n: f64 = as_real(&long[0]).iter().map(|x| x * x).sum();
    assert!((n - 1.0).abs() < 0.0001);
    let again = normalize_all_inplace(long.clone());
    assert!(close(&as_real(&long[0]), &as_real(&again[0])));
}

#[test]
fn exact_inner_product() {
    assert_eq!(3 * 4 + (-2) * 5 + 7 * 0, dot_product(&vec![3, -2, 7], &vec![4, 5, 0]));
    let big = vec![i32::MIN, i32::MIN];
    assert_eq!(2 * (i32::MIN as i128) * (i32::MIN as i128), dot_product(&big, &big));
}

#[test]
fn similarity_window_is_the_matrix_product() {
    let e = vec![vec![1, 2], vec![3, 4], vec![5, 6]];
    let w = similarity_window(&e, 1, 3, 0, 2);
    assert_eq!(vec![vec![11, 25], vec![17, 39]], w);
}

#[test]
fn configuration_is_checked() {
    assert_eq!(Err(ClusterError::Configuration), Config::new(0, 5, 10));
    assert_eq!(Err(ClusterError::Configuration), Config::new(SIMILARITY_ONE, 5, 10));
    assert_eq!(Err(ClusterError::Configuration), Config::new(-3, 5, 10));
    assert_eq!(Err(ClusterError::Configuration), Config::new(MIN_SIMILARITY, 0, 10));
    assert_eq!(Err(ClusterError::Configuration), Config::new(MIN_SIMILARITY, 5, 0));
    let c = Config::new(MIN_SIMILARITY, 5, 10).unwrap();
    assert_eq!(10, c.chunk_size);
    assert_eq!(Err(ClusterError::Configuration), c.with_chunk_size(0));
    assert_eq!(3, c.with_chunk_size(3).unwrap().chunk_size);
    let d = Config::default();
    assert_eq!(MIN_SIMILARITY, d.min_similarity);
    assert_eq!(MIN_CLUSTER_SIZE, d.min_cluster_size);
    assert_eq!(CHUNK_SIZE, d.chunk_size);
    assert_eq!(197_032_483_697_459, MIN_SIMILARITY);
}

#[test]
fn input_shape_is_checked() {
    assert_eq!(Err(ClusterError::InputShape), vectors_to_array(vec![]));
    assert_eq!(Ok(vec![vec![]]), vectors_to_array(vec![vec![]]));
    assert_eq!(Err(ClusterError::InputShape), vectors_to_array(vec![vec![1, 2], vec![3]]));
    assert_eq!(Ok(vec![vec![1, 2], vec![3, 4]]), vectors_to_array(vec![vec![1, 2], vec![3, 4]]));
    let cfg = config(2);
    assert_eq!(Err(ClusterError::InputShape), cluster_using_ndarray(vec![], &cfg));
    assert_eq!(Err(ClusterError::InputShape), cluster_using_ndarray_low_memory(vec![vec![1], vec![]], &cfg));
    assert_eq!(Err(ClusterError::InputShape), cluster_using_ndarray_batched(vec![], &cfg));
    assert_eq!(
        Err(ClusterError::InputShape),
        cluster_using_ndarray_batched_unique_on_the_go(vec![vec![1, 2], vec![1]], &cfg)
    );
    assert_eq!(Err(ClusterError::InputShape), cluster_massive(vec![], &cfg));
}

#[test]
fn six_near_identical_vectors_form_one_cluster() {
    let e = unit_rows(&tight_group(0, 4));
    let expect: Clusters = vec![(0, vec![0, 1, 2, 3, 4, 5])];
    let cfg = config(1000);
    assert_eq!(expect, cluster_using_ndarray(e.clone(), &cfg).unwrap());
    assert_eq!(expect, cluster_using_ndarray_low_memory(e.clone(), &cfg).unwrap());
    assert_eq!(expect, cluster_using_ndarray_batched(e.clone(), &cfg).unwrap());
    assert_eq!(expect, cluster_using_ndarray_batched_unique_on_the_go(e.clone(), &cfg).unwrap());
    assert_eq!(expect, cluster_massive(e.clone(), &cfg).unwrap());
}

#[test]
fn five_similar_vectors_are_too_few() {
    let mut rows = tight_group(0, 4);
    rows.pop();
    let e = unit_rows(&rows);
    assert_eq!(Vec::<(usize, Vec<usize>)>::new(), cluster_using_ndarray(e, &config(10)).unwrap());
}

#[test]
fn two_tight_groups_give_two_clusters_for_every_chunk_size() {
    let mut rows = tight_group(0, 6);
    rows.extend(tight_group(3, 6));
    let e = unit_rows(&rows);
    let whole = cluster_using_ndarray(e.clone(), &config(1000)).unwrap();
    assert_eq!(2, whole.len());
    assert!(whole.iter().all(|(_, m)| m.len() == 6));
    assert_eq!(vec![(0, vec![0, 1, 2, 3, 4, 5]), (6, vec![6, 7, 8, 9, 10, 11])], whole);
    for chunk in 1..=13 {
        let cfg = config(chunk);
        assert_eq!(whole, cluster_using_ndarray_batched(e.clone(), &cfg).unwrap());
        assert_eq!(
            member_sets(&whole),
            member_sets(&cluster_using_ndarray_batched_unique_on_the_go(e.clone(), &cfg).unwrap())
        );
    }
    assert_eq!(whole, cluster_using_ndarray_low_memory(e.clone(), &config(1)).unwrap());
    for chunk in [6, 12, 100] {
        assert_eq!(member_sets(&whole), member_sets(&cluster_massive(e.clone(), &config(chunk)).unwrap()));
    }
}

#[test]
fn single_row_chunks_match_one_chunk() {
    let mut rows = tight_group(1, 5);
    rows.extend(tight_group(3, 5));
    rows.push(vec![0.5, 0.5, 0.0, 0.5, 0.5]);
    let e = unit_rows(&rows);
    let one = cluster_using_ndarray_batched(e.clone(), &config(1)).unwrap();
    let all = cluster_using_ndarray_batched(e.clone(), &config(e.len())).unwrap();
    assert_eq!(all, one);
    assert_eq!(all, cluster_using_ndarray_low_memory(e.clone(), &config(7)).unwrap());
    assert_eq!(all, cluster_using_ndarray(e, &config(7)).unwrap());
}

#[test]
fn overlapping_candidates_are_dropped_whole() {
    let c: Clusters = vec![(0, vec![0, 1, 2]), (5, vec![2, 5]), (7, vec![7, 8])];
    assert_eq!(vec![(0, vec![0, 1, 2]), (7, vec![7, 8])], unique_clusters(&c));
    let empty: Clusters = vec![];
    assert_eq!(empty, unique_clusters(&empty));
}

#[test]
fn sorting_is_by_size_and_stable() {
    let c: Clusters = vec![(0, vec![1]), (1, vec![1, 2]), (2, vec![3]), (3, vec![4, 5, 6]), (4, vec![7, 8])];
    let s = sort_by_size(&c);
    assert_eq!(vec![3, 1, 4, 0, 2], s.iter().map(|(c, _)| *c).collect::<Vec<_>>());
}

#[test]
fn push_clusters_offsets_rows_and_columns() {
    let t = MIN_SIMILARITY as i128;
    let scores = vec![vec![t + 1, t + 1, t], vec![t + 1, t + 1, t + 1]];
    let cfg = Config::new(MIN_SIMILARITY, 2, 1).unwrap();
    let mut c: Clusters = vec![(99, vec![99])];
    push_clusters(&scores, &mut c, 10, 20, &cfg);
    assert_eq!(vec![(99, vec![99]), (11, vec![20, 21, 22])], c);
}

#[test]
fn views_report_positions_in_the_full_corpus() {
    let mut rows = tight_group(0, 4);
    rows.extend(tight_group(2, 4));
    let e = unit_rows(&rows);
    let cfg = config(6);
    assert_eq!(vec![(6, vec![6, 7, 8, 9, 10, 11])], cluster_no_splitting_view(&e, 6, 12, &cfg));
    assert_eq!(Vec::<(usize, Vec<usize>)>::new(), cluster_no_splitting_view(&e, 3, 9, &cfg));
    let shifted = cluster_no_splitting(&e[0..6].to_vec(), 100, &cfg);
    assert_eq!(vec![(100, vec![100, 101, 102, 103, 104, 105])], shifted);
}

#[test]
fn merge_recluster_joins_similar_clusters() {
    let mut rows = tight_group(0, 4);
    rows.extend(tight_group(0, 4));
    let e = unit_rows(&rows);
    let cfg = config(6);
    let a: Clusters = vec![(0, vec![0, 1, 2, 3, 4, 5])];
    let b: Clusters = vec![(6, vec![6, 7, 8, 9, 10, 11])];
    let m = merge_community(&a[0], &b[0], &e, &cfg).unwrap();
    assert_eq!(12, m.1.len());
    let merged = merge_clusters(a.clone(), b.clone(), &e, &cfg);
    assert_eq!(1, merged.len());
    assert_eq!(12, count_docs_in_clusters(&merged));
    assert_eq!(merged, cluster_massive(e.clone(), &cfg).unwrap());
    assert_eq!(a, merge_clusters(a.clone(), vec![], &e, &cfg));
    assert_eq!(b, merge_clusters(vec![], b.clone(), &e, &cfg));
}

#[test]
fn merge_of_separate_clusters_keeps_all_documents() {
    let mut rows = tight_group(0, 6);
    rows.extend(tight_group(3, 6));
    let e = unit_rows(&rows);
    let cfg = config(6);
    let a: Clusters = vec![(0, vec![0, 1, 2, 3, 4, 5])];
    let b: Clusters = vec![(6, vec![6, 7, 8, 9, 10, 11])];
    let merged = merge_clusters(a.clone(), b.clone(), &e, &cfg);
    assert_eq!(count_docs_in_clusters(&a) + count_docs_in_clusters(&b), count_docs_in_clusters(&merged));
    assert_eq!(vec![(0, vec![0, 1, 2, 3, 4, 5]), (6, vec![6, 7, 8, 9, 10, 11])], merged);
}

#[test]
fn stragglers_join_the_nearest_centroid() {
    let mut rows = tight_group(0, 6);
    rows.extend(tight_group(3, 6));
    rows.push(vec![0.0, 0.1, 0.0, 1.0, 0.1, 0.0]);
    rows.push(vec![0.0, 0.0, 1.0, 0.0, 0.0, 1.0]);
    let e = unit_rows(&rows);
    let cfg = config(6);
    let mut c: Clusters = vec![(0, vec![0, 1, 2, 3, 4, 5]), (6, vec![6, 7, 8, 9, 10, 11])];
    let held = clustered_document_indexes(&c);
    assert_eq!(12, held.len());
    assert!(!held.contains(&12));
    assign_stragglers(&mut c, &e, &cfg);
    assert_eq!(vec![(0, vec![0, 1, 2, 3, 4, 5]), (6, vec![6, 7, 8, 9, 10, 11, 12])], c);
    let whole = cluster_massive(e, &config(100)).unwrap();
    assert_eq!(13, count_docs_in_clusters(&whole));
}

#[test]
fn separation_violation_is_reported() {
    let e = unit_rows(&[vec![1.0, 0.0], vec![0.99, 0.05], vec![0.0, 1.0]]);
    let cfg = config(3);
    let close_pair: Clusters = vec![(0, vec![0]), (1, vec![1])];
    match check_separation(&close_pair, &e, &cfg) {
        Err(ClusterError::InvariantViolation { first, second, score }) => {
            assert!(first != second);
            assert!(score > MIN_SIMILARITY as i128);
            assert_eq!(score, dot_product(&e[first], &e[second]));
        }
        other => panic!("expected a violation, got {:?}", other),
    }
    let apart: Clusters = vec![(0, vec![0]), (2, vec![2])];
    assert_eq!(Ok(()), check_separation(&apart, &e, &cfg));
}

#[test]
fn centroids_and_rows_are_gathered() {
    let c: Clusters = vec![(4, vec![4]), (1, vec![1, 2])];
    assert_eq!(vec![4, 1], centroids(&c));
    let e = vec![vec![1, 1], vec![2, 2], vec![3, 3]];
    assert_eq!(vec![vec![3, 3], vec![1, 1]], get_embeddings(&vec![2, 0], &e));
    assert_eq!(3, count_docs_in_clusters(&c));
}

#[test]
fn length_decides_short_and_long_texts() {
    for n in 0..=3 {
        assert_eq!(Some(true), phatic_by_word_count(n));
    }
    for n in 4..15 {
        assert_eq!(None, phatic_by_word_count(n));
    }
    assert_eq!(Some(false), phatic_by_word_count(15));
    assert_eq!(Some(false), phatic_by_word_count(usize::MAX));
}

#[test]
fn strategies_reject_a_bad_configuration() {
    let e = unit_rows(&tight_group(0, 4));
    let bad = Config { min_similarity: SIMILARITY_ONE, min_cluster_size: 5, chunk_size: 10 };
    assert!(!bad.is_valid());
    assert_eq!(Err(ClusterError::Configuration), cluster_using_ndarray(e.clone(), &bad));
    assert_eq!(Err(ClusterError::Configuration), cluster_using_ndarray_low_memory(e.clone(), &bad));
    let no_blocks = Config { min_similarity: MIN_SIMILARITY, min_cluster_size: 5, chunk_size: 0 };
    assert_eq!(Err(ClusterError::Configuration), cluster_using_ndarray_batched(e.clone(), &no_blocks));
    assert_eq!(
        Err(ClusterError::Configuration),
        cluster_using_ndarray_batched_unique_on_the_go(e.clone(), &no_blocks)
    );
    assert_eq!(Err(ClusterError::Configuration), cluster_massive(vec![], &no_blocks));
    assert!(config(10).is_valid());
}

#[test]
fn short_vectors_reach_unit_length() {
    let r = normalize(&vec![1, 1]);
    assert!(close(&[0.7071067812, 0.7071067812], &as_real(&r)));
    let r = normalize(&vec![2, 3]);
    assert!(close(&[0.5547001962, 0.8320502943], &as_real(&r)));
    let r = normalize(&vec![0, -1, 0]);
    assert_eq!(vec![0, -UNIT, 0], r);
    for v in [vec![1, 1], vec![2, 3], vec![-7, 1, 5, 2], vec![1, 0, 0, 0, 0, 1]] {
        let r = normalize(&v);
        let n: f64 = as_real(&r).iter().map(|x| x * x).sum();
        assert!((n - 1.0).abs() < 0.0001);
        let again = normalize(&r);
        assert!(close(&as_real(&r), &as_real(&again)));
    }
    let rows = normalize_all_inplace(vec![vec![1, 1], vec![0, 0], vec![3, 4]]);
    assert!(close(&[0.7071067812, 0.7071067812], &as_real(&rows[0])));
    assert_eq!(vec![0, 0], rows[1]);
    assert_eq!(vec![10066329, 13421772], rows[2]);
}

#[test]
fn rows_without_components_give_an_empty_partition() {
    let e: Vec<Vec<i32>> = vec![vec![]; 7];
    let cfg = Config::new(MIN_SIMILARITY, 1, 3).unwrap();
    let none: Clusters = vec![];
    assert_eq!(Ok(e.clone()), vectors_to_array(e.clone()));
    assert_eq!(Ok(none.clone()), cluster_using_ndarray(e.clone(), &cfg));
    assert_eq!(Ok(none.clone()), cluster_using_ndarray_low_memory(e.clone(), &cfg));
    assert_eq!(Ok(none.clone()), cluster_using_ndarray_batched(e.clone(), &cfg));
    assert_eq!(Ok(none.clone()), cluster_using_ndarray_batched_unique_on_the_go(e.clone(), &cfg));
    assert_eq!(Ok(none.clone()), cluster_massive(e.clone(), &cfg));
    assert_eq!(vec![Vec::<i32>::new()], normalize_all_inplace(vec![vec![]]));
}

#[test]
fn merge_keeps_a_cluster_whose_union_forms_nothing() {
    // Centroid 0 at (5, 0); members (20, 20) and (20, -20) are far from each other.
    let e = vec![vec![5, 0], vec![20, 20], vec![20, -20]];
    let cfg = Config::new(10, 1, 3).unwrap();
    let a: Community = (0, vec![1, 2]);
    let b: Community = (0, vec![1, 2]);
    assert_eq!(None, merge_community(&a, &b, &e, &cfg));
    let kept = merge_clusters(vec![a.clone()], vec![b.clone()], &e, &cfg);
    assert_eq!(vec![a], kept);
}

#[test]
fn perplexity_fits_the_number_of_points() {
    assert_eq!(0, tsne_perplexity(3));
    assert_eq!(1, tsne_perplexity(4));
    assert_eq!(3, tsne_perplexity(11));
    assert_eq!(39, tsne_perplexity(120));
    assert_eq!(40, tsne_perplexity(121));
    assert_eq!(40, tsne_perplexity(10_000));
}
