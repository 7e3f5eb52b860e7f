use meanshift::index::Bins;
use meanshift::index::FullSearch;
use meanshift::index::GridIndex;
use meanshift::merge::MergeState;
use meanshift::traits::Index;

#[test]
fn it_works() {
    let result: i32 = 2 + 2;
    assert_eq!(result, 4);
}

fn bins(x: i64, y: i64, z: i64) -> Bins {
    Bins { x, y, z }
}

fn sorted(mut v: Vec<usize>) -> Vec<usize> {
    v.sort_unstable();
    v
}

#[test]
fn fullsearch_returns_every_index() {
    let data: Vec<[f64; 2]> = vec![[0.0, 0.0], [1.0, 1.0], [2.0, 2.0]];
    let f = FullSearch::new(&data);
    let n = f.neighbors(&[0.5, 0.5]);
    assert_eq!(n, vec![0, 1, 2]);
}

#[test]
fn fullsearch_empty_is_degenerate_but_valid() {
    let data: Vec<[f64; 3]> = Vec::new();
    let f = FullSearch::new(&data);
    assert_eq!(f.neighbors(&[9.0, 9.0, 9.0]), Vec::<usize>::new());
}

#[test]
fn fullsearch_refresh_keeps_count() {
    let data: Vec<u32> = vec![7, 8, 9];
    let mut f = FullSearch::new(&data);
    f.refresh(&data);
    assert_eq!(f.neighbors(&7).len(), 3);
}

#[test]
fn grid_buckets_by_cell() {
    let pts = vec![
        bins(0, 0, 0),
        bins(1, 0, 0),
        bins(0, 0, 0),
        bins(3, 3, 3),
    ];
    let g = GridIndex::<2>::construct(&pts);
    assert_eq!(sorted(g.neighbors(&bins(0, 0, 0))), vec![0, 2]);
    assert_eq!(sorted(g.neighbors(&bins(1, 0, 0))), vec![1]);
    assert_eq!(sorted(g.neighbors(&bins(3, 3, 3))), vec![3]);
    assert_eq!(g.neighbors(&bins(2, 2, 2)), Vec::<usize>::new());
}

#[test]
fn grid_clamps_out_of_range_bins() {
    // One bit per axis: valid bins are 0 and 1. Negative bins clamp to 0,
    // bins past the edge clamp to 1, so queries outside the original
    // bounding box still land in a real cell.
    let pts = vec![bins(0, 0, 0), bins(1, 1, 1)];
    let g = GridIndex::<1>::construct(&pts);
    assert_eq!(sorted(g.neighbors(&bins(-7, -1, 0))), vec![0]);
    assert_eq!(sorted(g.neighbors(&bins(5, 1, 100))), vec![1]);
}

#[test]
fn grid_refresh_matches_rebuild() {
    let before = vec![
        bins(0, 0, 0),
        bins(1, 2, 3),
        bins(1, 2, 3),
        bins(2, 2, 2),
        bins(0, 3, 1),
    ];
    // Every point moves somewhere else; two end up sharing a cell.
    let after = vec![
        bins(3, 3, 3),
        bins(0, 0, 0),
        bins(1, 1, 1),
        bins(0, 0, 0),
        bins(2, 1, 0),
    ];
    let mut refreshed = GridIndex::<2>::construct(&before);
    refreshed.refresh(&after);
    let rebuilt = GridIndex::<2>::construct(&after);
    for x in 0..4 {
        for y in 0..4 {
            for z in 0..4 {
                let q = bins(x, y, z);
                assert_eq!(
                    sorted(refreshed.neighbors(&q)),
                    sorted(rebuilt.neighbors(&q)),
                );
            }
        }
    }
}

#[test]
fn grid_refresh_within_one_bucket() {
    // No point changes cell; refresh must still leave every bucket's
    // contents intact (order inside a bucket may differ).
    let pts = vec![bins(0, 0, 0), bins(0, 0, 0), bins(0, 0, 0)];
    let mut g = GridIndex::<1>::construct(&pts);
    g.refresh(&pts);
    assert_eq!(sorted(g.neighbors(&bins(0, 0, 0))), vec![0, 1, 2]);
}

#[test]
fn grid_degenerate_extent_single_cell() {
    // All points coincident: the grid degenerates to one populated cell and
    // behaves as a coarse exhaustive search for queries landing in it.
    let pts = vec![bins(0, 0, 0); 10];
    let g = GridIndex::<3>::construct(&pts);
    let everyone: Vec<usize> = (0..10).collect();
    assert_eq!(sorted(g.neighbors(&bins(0, 0, 0))), everyone);
    assert_eq!(sorted(g.neighbors(&bins(-4, -4, -4))), everyone);
}

#[test]
fn grid_empty_is_degenerate_but_valid() {
    let pts: Vec<Bins> = Vec::new();
    let g = GridIndex::<2>::construct(&pts);
    assert_eq!(g.neighbors(&bins(1, 1, 1)), Vec::<usize>::new());
}

#[test]
fn grid_dense_matches_fullsearch_when_one_cell() {
    // When every point shares the query's cell, the grid's candidates are
    // exactly the exhaustive scan's.
    let pts = vec![bins(1, 1, 1); 4];
    let g = GridIndex::<1>::construct(&pts);
    let f = FullSearch::new(&pts);
    assert_eq!(sorted(g.neighbors(&bins(1, 1, 1))), f.neighbors(&bins(1, 1, 1)));
}

#[test]
fn merge_claims_in_weight_order() {
    // Five seeds walked in descending-weight order 3, 0, 4, 2, 1.
    // Seed 3 founds cluster 0 and claims seed 1; seed 0 founds cluster 1 and
    // claims seed 4; seed 2 founds cluster 2.
    let mut st = MergeState::new(5);
    assert!(st.is_candidate(3));
    st.claim_rep(3);
    st.claim_member(1);
    assert!(st.is_candidate(0));
    st.claim_rep(0);
    st.claim_member(4);
    assert!(!st.is_candidate(4));
    assert!(st.is_candidate(2));
    st.claim_rep(2);
    assert_eq!(st.num_clusters(), 3);
    assert_eq!(st.labels(), &vec![1, 0, 2, 0, 1]);
    assert_eq!(st.reps(), &vec![3, 0, 2]);
}

#[test]
fn merge_reps_carry_their_own_label() {
    let mut st = MergeState::new(4);
    st.claim_rep(2);
    st.claim_member(0);
    st.claim_rep(1);
    let labels = st.labels().clone();
    for (l, &rep) in st.reps().iter().enumerate() {
        assert_eq!(labels[rep], l);
        assert!(!st.is_candidate(rep));
    }
}

#[test]
fn merge_labels_stay_below_cluster_count() {
    let mut st = MergeState::new(3);
    st.claim_rep(1);
    st.claim_member(0);
    st.claim_member(2);
    let n_clusters = st.num_clusters();
    for i in 0..st.len() {
        if !st.is_candidate(i) {
            assert!(st.labels()[i] < n_clusters);
        }
    }
}

#[test]
fn merge_single_seed() {
    let mut st = MergeState::new(1);
    st.claim_rep(0);
    assert_eq!(st.labels(), &vec![0]);
    assert_eq!(st.reps(), &vec![0]);
    assert_eq!(st.num_clusters(), 1);
}

#[test]
fn neighbors_is_deterministic() {
    let pts = vec![bins(0, 1, 2), bins(1, 1, 1), bins(0, 1, 2)];
    let g = GridIndex::<2>::construct(&pts);
    let q = bins(0, 1, 2);
    assert_eq!(g.neighbors(&q), g.neighbors(&q));
    let h = GridIndex::<2>::construct(&pts);
    assert_eq!(g.neighbors(&q), h.neighbors(&q));
    let f = FullSearch::new(&pts);
    assert_eq!(f.neighbors(&q), f.neighbors(&q));
}

#[test]
fn index_lengths_track_points() {
    let pts = vec![bins(0, 0, 0), bins(1, 1, 1)];
    let g = GridIndex::<1>::construct(&pts);
    assert_eq!(g.len(), 2);
    let f = FullSearch::new(&pts);
    assert_eq!(f.len(), 2);
    assert_eq!(MergeState::new(7).len(), 7);
}
