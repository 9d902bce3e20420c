use proxima::neighbor::{nearest_k, NearestBuffer, Neighbor};

fn nb(id: u64, distance: u32) -> Neighbor {
    Neighbor { id, distance }
}

#[test]
fn picks_the_k_smallest_nearest_first() {
    let c = vec![nb(10, 50), nb(11, 20), nb(12, 90), nb(13, 10), nb(14, 30)];
    assert_eq!(nearest_k(&c, 3), vec![nb(13, 10), nb(11, 20), nb(14, 30)]);
    assert_eq!(nearest_k(&c, 0), vec![]);
    assert_eq!(
        nearest_k(&c, 10),
        vec![nb(13, 10), nb(11, 20), nb(14, 30), nb(10, 50), nb(12, 90)]
    );
}

#[test]
fn ties_go_to_the_earlier_candidate() {
    let c = vec![nb(1, 5), nb(2, 3), nb(3, 5), nb(4, 3), nb(5, 5)];
    assert_eq!(nearest_k(&c, 3), vec![nb(2, 3), nb(4, 3), nb(1, 5)]);
    assert_eq!(nearest_k(&c, 4), vec![nb(2, 3), nb(4, 3), nb(1, 5), nb(3, 5)]);
}

#[test]
fn empty_candidates_give_nothing() {
    assert_eq!(nearest_k(&vec![], 3), vec![]);
}

#[test]
fn eviction_keeps_the_best_k() {
    let c: Vec<Neighbor> = (0..20u64).map(|i| nb(i, (100 - 5 * i) as u32)).collect();
    let got = nearest_k(&c, 4);
    assert_eq!(got, vec![nb(19, 5), nb(18, 10), nb(17, 15), nb(16, 20)]);
}

#[test]
fn streaming_buffer_matches_batch_selection() {
    let c: Vec<Neighbor> = (0..30u64).map(|i| nb(i, ((i * 37) % 11) as u32)).collect();
    for k in [0usize, 1, 3, 7, 30, 40] {
        let mut buf = NearestBuffer::new(k);
        for x in &c {
            buf.offer(*x);
        }
        assert_eq!(buf.into_sorted(), nearest_k(&c, k));
    }
}

#[test]
fn streaming_buffer_keeps_ties_in_offer_order() {
    let mut buf = NearestBuffer::new(2);
    buf.offer(nb(7, 4));
    buf.offer(nb(8, 4));
    buf.offer(nb(9, 4));
    assert_eq!(buf.into_sorted(), vec![nb(7, 4), nb(8, 4)]);
}
