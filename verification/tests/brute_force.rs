use proxima::brute_force::BruteForceIndex;
use proxima::metric::distance_key;
use proxima::neighbor::Neighbor;
use proxima::vector::Vector;

// Euclidean distance of two f32 points, as the caller computes it.
fn l2(a: &[f32], b: &[f32]) -> f32 {
    a.iter()
        .zip(b)
        .map(|(x, y)| (x - y) * (x - y))
        .sum::<f32>()
        .sqrt()
}

fn search_l2(idx: &BruteForceIndex<Vector<f32>>, query: &[f32], k: usize) -> Vec<Neighbor> {
    assert!(idx.dims_agree(query.len()), "dimension mismatch");
    idx.search_by(query, |a: &[f32], b: &[f32]| distance_key(l2(a, b).to_bits()), k)
}

fn build() -> (BruteForceIndex<Vector<f32>>, [u64; 4]) {
    let mut idx = BruteForceIndex::new();
    let ids = [
        idx.insert(Vector::from([0.0, 0.0])),
        idx.insert(Vector::from([1.0, 0.0])),
        idx.insert(Vector::from([5.0, 0.0])),
        idx.insert(Vector::from([0.0, 10.0])),
    ];
    (idx, ids)
}

#[test]
fn returns_k_nearest_sorted() {
    let (idx, ids) = build();
    let res = search_l2(&idx, &[0.0, 0.0], 2);
    assert_eq!(res.len(), 2);
    assert_eq!(res[0].id, ids[0]); // (0,0) itself, distance 0
    assert_eq!(res[1].id, ids[1]); // (1,0), distance 1
    assert!(res[0].distance <= res[1].distance);
}

#[test]
fn k_larger_than_len_returns_all() {
    let (idx, _) = build();
    assert_eq!(search_l2(&idx, &[0.0, 0.0], 99).len(), 4);
}

#[test]
fn k_zero_returns_empty() {
    let (idx, _) = build();
    assert!(search_l2(&idx, &[0.0, 0.0], 0).is_empty());
}

#[test]
fn update_moves_the_vector() {
    let (mut idx, ids) = build();
    assert!(idx.update(ids[2], Vector::from([0.5, 0.0]))); // move (5,0) -> (0.5,0)
    let res = search_l2(&idx, &[0.0, 0.0], 2);
    assert_eq!(res[0].id, ids[0]); // (0,0)
    assert_eq!(res[1].id, ids[2]); // now (0.5,0), closer than (1,0)
    assert!(!idx.update(99, Vector::from([0.0, 0.0]))); // unknown id
}

#[test]
fn remove_then_absent_from_results() {
    let (mut idx, ids) = build();
    assert!(idx.remove(ids[1])); // drop (1,0)
    let res = search_l2(&idx, &[0.0, 0.0], 2);
    assert_eq!(res[0].id, ids[0]);
    assert_eq!(res[1].id, ids[2]); // (5,0) now the runner-up
    assert!(!idx.remove(ids[1])); // already gone
}

#[test]
fn search_returns_exact_distances_and_full_order() {
    let (idx, ids) = build();
    let res = search_l2(&idx, &[0.0, 0.0], 4);
    let got: Vec<u64> = res.iter().map(|n| n.id).collect();
    assert_eq!(got, vec![ids[0], ids[1], ids[2], ids[3]]);
    assert_eq!(res[2].distance, distance_key(5.0f32.to_bits()));
    assert_eq!(res[3].distance, distance_key(10.0f32.to_bits()));
}

#[test]
fn smaller_k_is_a_prefix_of_larger_k() {
    let (idx, _) = build();
    let all = search_l2(&idx, &[4.0, 1.0], 4);
    for k in 0..=4 {
        assert_eq!(search_l2(&idx, &[4.0, 1.0], k), all[..k].to_vec());
    }
}

#[test]
fn insert_assigns_fresh_increasing_ids() {
    let mut idx: BruteForceIndex<Vector<f32>> = BruteForceIndex::new();
    assert!(idx.is_empty());
    assert_eq!(idx.next_free_id(), 0);
    let a = idx.insert(Vector::from([1.0]));
    let b = idx.insert(Vector::from([2.0]));
    assert_eq!((a, b), (0, 1));
    assert!(idx.remove(a));
    let c = idx.insert(Vector::from([3.0]));
    assert_eq!(c, 2); // ids are never reused
    assert!(c > a);
    assert!(idx.get(a).is_none());
    assert_eq!(idx.len(), 2);
    assert_eq!(idx.next_free_id(), 3);
}

#[test]
fn get_after_insert_update_remove() {
    let (mut idx, ids) = build();
    assert_eq!(idx.get(ids[3]), Some(&Vector::from([0.0, 10.0])));
    assert!(idx.update(ids[3], Vector::from([7.0, 7.0])));
    assert_eq!(idx.get(ids[3]), Some(&Vector::from([7.0, 7.0])));
    assert_eq!(idx.get(ids[0]), Some(&Vector::from([0.0, 0.0])));
    assert!(idx.remove(ids[3]));
    assert_eq!(idx.get(ids[3]), None);
    assert_eq!(idx.get(ids[2]), Some(&Vector::from([5.0, 0.0])));
    assert_eq!(idx.get(12345), None);
}

#[test]
fn remove_moves_the_last_entry_into_the_gap() {
    let (mut idx, ids) = build();
    assert!(idx.remove(ids[0]));
    let order: Vec<u64> = idx.iter().iter().map(|(id, _)| *id).collect();
    assert_eq!(order, vec![ids[3], ids[1], ids[2]]);
}

#[test]
fn equally_distant_vectors_keep_storage_order() {
    let mut idx = BruteForceIndex::new();
    let a = idx.insert(Vector::from([1.0, 0.0]));
    let b = idx.insert(Vector::from([0.0, 1.0]));
    let c = idx.insert(Vector::from([-1.0, 0.0]));
    let res = search_l2(&idx, &[0.0, 0.0], 2);
    assert_eq!(res.iter().map(|n| n.id).collect::<Vec<_>>(), vec![a, b]);
    let res = search_l2(&idx, &[0.0, 0.0], 3);
    assert_eq!(res.iter().map(|n| n.id).collect::<Vec<_>>(), vec![a, b, c]);
}

#[test]
fn default_is_empty() {
    let idx: BruteForceIndex<Vector<f32>> = Default::default();
    assert_eq!(idx.len(), 0);
    assert!(idx.iter().is_empty());
    assert_eq!(idx.next_free_id(), 0);
}

#[test]
fn len_counts_inserts_less_successful_removes() {
    let (mut idx, ids) = build(); // 4 inserts
    assert!(idx.remove(ids[1]));
    assert!(!idx.remove(ids[1])); // not found: not counted
    assert!(!idx.remove(77)); // never handed out
    assert!(idx.update(ids[0], Vector::from([9.0, 9.0])));
    let e = idx.insert(Vector::from([2.0, 2.0])); // 5 inserts
    assert_eq!(idx.len(), 5 - 1);
    assert_eq!(idx.iter().len(), idx.len());
    assert_ne!(e, ids[1]); // the removed id is not handed out again
    assert_eq!(idx.get(ids[1]), None);
    assert_eq!(idx.get(ids[0]), Some(&Vector::from([9.0, 9.0]))); // latest write
}

#[test]
fn dims_agree_checks_every_stored_vector() {
    let (mut idx, _) = build();
    assert!(idx.dims_agree(2));
    assert!(!idx.dims_agree(3));
    idx.insert(Vector::from([1.0, 2.0, 3.0]));
    assert!(!idx.dims_agree(2));
    assert!(BruteForceIndex::<Vector<f32>>::new().dims_agree(7));
}

#[test]
fn search_by_keys_matches_streaming_search() {
    let (idx, _) = build();
    let query = [4.0f32, 1.0];
    let keys: Vec<u32> = idx
        .iter()
        .iter()
        .map(|(_, v)| distance_key(l2(&query, v.as_slice()).to_bits()))
        .collect();
    for k in 0..6 {
        assert_eq!(idx.search(&keys, k), search_l2(&idx, &query, k));
    }
}

#[test]
fn search_by_calls_key_once_per_stored_vector() {
    let (idx, _) = build();
    let calls = std::cell::Cell::new(0usize);
    let res = idx.search_by(
        &[0.0, 0.0],
        |a: &[f32], b: &[f32]| {
            assert_eq!(a.len(), b.len());
            calls.set(calls.get() + 1);
            distance_key(l2(a, b).to_bits())
        },
        1,
    );
    assert_eq!(calls.get(), 4);
    assert_eq!(res.len(), 1);
}
