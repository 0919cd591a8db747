use mcts::uct::uct;

#[test]
fn unvisited_child_scores_the_maximum() {
    assert_eq!(uct(0, 0, 0), u32::MAX);
    assert_eq!(uct(100, 50, 0), u32::MAX);
    assert_eq!(uct(10_000, -3, 0), u32::MAX);
}

#[test]
fn pure_exploitation_when_parent_seen_once() {
    // ln is approximated through floor(log2), so a parent with one visit
    // contributes no exploration bonus: the score is the scaled average.
    assert_eq!(uct(1, 1, 1), 1024);
    assert_eq!(uct(1, 6, 2), 3 * 1024);
}

#[test]
fn exploration_bonus_exact_value() {
    // For total_visit = 2: floor(log2) = 1, so the scaled ln is 710 and the
    // bonus is floor(sqrt(2 * 1024 * 710)) = 1205.
    assert_eq!(uct(2, 1, 1), 1024 + 1205);
    assert_eq!(uct(2, 0, 1), 1205);
}

#[test]
fn negative_scores_saturate_at_zero() {
    assert_eq!(uct(1, -5, 1), 0);
    assert_eq!(uct(1, i32::MIN, 1), 0);
}

#[test]
fn large_scores_saturate_at_the_maximum() {
    assert_eq!(uct(1, i32::MAX, 1), u32::MAX);
}

#[test]
fn non_increasing_in_child_visits() {
    let total = 512;
    let win = 7;
    let mut previous = uct(total, win, 1);
    for visits in 2..50 {
        let current = uct(total, win, visits);
        assert!(current <= previous);
        previous = current;
    }
}
