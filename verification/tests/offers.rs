use admission_sim::offer::{backfill, offer};
use admission_sim::ranking::{rank, rising_order};

#[test]
fn offer_takes_best_first_and_keeps_submission_order_on_ties() {
    let candidates = vec![(7, 50_000), (3, 61_000), (9, 50_000), (1, 70_000)];
    assert_eq!(offer(3, &candidates), vec![1, 3, 7]);
    assert_eq!(offer(4, &candidates), vec![1, 3, 7, 9]);
}

#[test]
fn offer_is_undersubscribed_when_quota_exceeds_candidates() {
    let candidates = vec![(4, 10), (5, 20)];
    assert_eq!(offer(10, &candidates), vec![5, 4]);
    assert_eq!(offer(0, &candidates), Vec::<usize>::new());
    assert_eq!(offer(3, &Vec::new()), Vec::<usize>::new());
}

#[test]
fn offers_never_shrink_as_the_quota_grows() {
    let candidates: Vec<(usize, i32)> =
        vec![(0, 300), (1, -5), (2, 300), (3, 120), (4, 9_000), (5, 120), (6, i32::MIN)];
    let mut before: Vec<usize> = Vec::new();
    for quota in 0..10 {
        let now = offer(quota, &candidates);
        assert_eq!(now.len(), quota.min(candidates.len()));
        assert!(now.len() >= before.len());
        assert_eq!(&now[..before.len()], &before[..]);
        before = now;
    }
    assert_eq!(before, vec![4, 0, 2, 3, 5, 1, 6]);
}

#[test]
fn backfill_issues_nothing_without_a_shortfall() {
    let rejected = vec![(10, 40_000), (11, 55_000)];
    assert_eq!(backfill(5, 5, 3, &rejected, None), Vec::<usize>::new());
    assert_eq!(backfill(9, 5, 3, &rejected, None), Vec::<usize>::new());
}

#[test]
fn backfill_admits_shortfall_plus_pool_best_first() {
    let rejected = vec![(10, 40_000), (11, 55_000), (12, 48_000), (13, 60_000)];
    assert_eq!(backfill(4, 5, 0, &rejected, None), vec![13]);
    assert_eq!(backfill(4, 5, 1, &rejected, None), vec![13, 11]);
    assert_eq!(backfill(0, 9, 9, &rejected, None), vec![13, 11, 12, 10]);
    assert_eq!(backfill(0, usize::MAX, usize::MAX, &rejected, None), vec![13, 11, 12, 10]);
}

#[test]
fn backfill_stops_at_the_floor() {
    let rejected = vec![(10, 40_000), (11, 55_000), (12, 48_000), (13, 60_000)];
    assert_eq!(backfill(0, 5, 1, &rejected, Some(45_000)), vec![13, 11, 12]);
    assert_eq!(backfill(0, 5, 1, &rejected, Some(48_000)), vec![13, 11, 12]);
    assert_eq!(backfill(0, 5, 1, &rejected, Some(48_001)), vec![13, 11]);
    assert_eq!(backfill(0, 5, 1, &rejected, Some(70_000)), Vec::<usize>::new());
    assert_eq!(backfill(0, 2, 0, &rejected, Some(0)), vec![13, 11]);
}

#[test]
fn rank_orders_by_score_then_place() {
    let candidates = vec![(5, 1), (6, 3), (7, 1), (8, 3), (9, 2)];
    assert_eq!(rank(&candidates), vec![(3, 1), (3, 3), (2, 4), (1, 0), (1, 2)]);
    assert_eq!(rank(&Vec::new()), Vec::<(i32, usize)>::new());
}

#[test]
fn rising_order_is_stable() {
    assert_eq!(rising_order(&vec![30, 10, 20, 10, i32::MAX, i32::MIN]), vec![5, 1, 3, 2, 0, 4]);
    assert_eq!(rising_order(&Vec::new()), Vec::<usize>::new());
}
