use loki_federation::aggregate::aggregate;
use loki_federation::direction::Direction;

fn e(ts: i64, line: &str) -> (i64, String) {
    (ts, line.to_string())
}

#[test]
fn it_should_aggregate_when_forward_and_set_a_contains_less_items_than_set_b() {
    assert_eq!(
        aggregate(vec![e(1, "A")], vec![e(1, "A"), e(2, "B")], Direction::Forward),
        vec![e(1, "A"), e(2, "B")]
    );
}

#[test]
fn it_should_aggregate_when_forward_and_set_a_contains_a_different_item_than_set_b() {
    assert_eq!(
        aggregate(vec![e(1, "A")], vec![e(1, "A the second one"), e(2, "B")], Direction::Forward),
        vec![e(1, "A"), e(1, "A the second one"), e(2, "B")]
    );
}

#[test]
fn it_should_aggregate_when_backward_and_set_a_contains_a_different_item_than_set_b() {
    assert_eq!(
        aggregate(vec![e(1, "A")], vec![e(2, "B"), e(1, "A the second one")], Direction::Backward),
        vec![e(2, "B"), e(1, "A the second one"), e(1, "A")]
    );
}

#[test]
fn it_should_aggregate_when_forward_and_set_a_is_empty() {
    assert_eq!(
        aggregate(vec![], vec![e(1, "A"), e(2, "B")], Direction::Forward),
        vec![e(1, "A"), e(2, "B")]
    );
}

#[test]
fn it_should_aggregate_when_backward_and_set_a_is_empty() {
    assert_eq!(
        aggregate(vec![], vec![e(2, "B"), e(1, "A")], Direction::Backward),
        vec![e(2, "B"), e(1, "A")]
    );
}

#[test]
fn it_should_aggregate_when_forward_and_set_a_contains_more_items_than_set_b() {
    assert_eq!(
        aggregate(vec![e(2, "B"), e(3, "C")], vec![e(1, "A")], Direction::Forward),
        vec![e(1, "A"), e(2, "B"), e(3, "C")]
    );
}

#[test]
fn it_should_aggregate_when_forward_and_set_a_and_b_contains_intersected_items() {
    assert_eq!(
        aggregate(vec![e(2, "B"), e(4, "D")], vec![e(1, "A"), e(3, "C")], Direction::Forward),
        vec![e(1, "A"), e(2, "B"), e(3, "C"), e(4, "D")]
    );
}

#[test]
fn it_should_aggregate_when_backward_and_set_a_and_b_contains_intesected_items() {
    assert_eq!(
        aggregate(vec![e(4, "D"), e(2, "B")], vec![e(3, "C"), e(1, "A")], Direction::Backward),
        vec![e(4, "D"), e(3, "C"), e(2, "B"), e(1, "A")]
    );
}

#[test]
fn it_should_aggregate_when_backward_and_set_a_contains_less_items_than_set_b() {
    assert_eq!(
        aggregate(vec![e(1, "A")], vec![e(1, "A"), e(2, "B")], Direction::Backward),
        vec![e(2, "B"), e(1, "A")]
    );
}

#[test]
fn forward_intersected_b_after_a() {
    assert_eq!(
        aggregate(vec![e(2, "B"), e(3, "C")], vec![e(1, "A")], Direction::Forward),
        vec![e(1, "A"), e(2, "B"), e(3, "C")]
    );
}

#[test]
fn forward_tie_with_nothing_older_goes_after_the_first_entry_at_most_as_old() {
    assert_eq!(
        aggregate(vec![e(1, "x"), e(1, "y"), e(2, "z")], vec![e(1, "w")], Direction::Forward),
        vec![e(1, "x"), e(1, "w"), e(1, "y"), e(2, "z")]
    );
}

#[test]
fn forward_tie_goes_right_after_the_last_older_entry() {
    assert_eq!(
        aggregate(vec![e(0, "q"), e(1, "x"), e(2, "z")], vec![e(1, "w")], Direction::Forward),
        vec![e(0, "q"), e(1, "w"), e(1, "x"), e(2, "z")]
    );
}

#[test]
fn backward_equal_timestamps_go_before_the_run() {
    assert_eq!(
        aggregate(vec![e(3, "z"), e(1, "x"), e(1, "y")], vec![e(1, "w")], Direction::Backward),
        vec![e(3, "z"), e(1, "w"), e(1, "x"), e(1, "y")]
    );
}

#[test]
fn backward_older_than_everything_goes_last() {
    assert_eq!(
        aggregate(vec![e(5, "a"), e(4, "b")], vec![e(1, "c")], Direction::Backward),
        vec![e(5, "a"), e(4, "b"), e(1, "c")]
    );
}

#[test]
fn merging_drops_repeated_entries_of_b() {
    assert_eq!(
        aggregate(vec![], vec![e(1, "a"), e(1, "a"), e(2, "b")], Direction::Forward),
        vec![e(1, "a"), e(2, "b")]
    );
}

#[test]
fn merging_keeps_the_order_of_a_when_it_contradicts_the_direction() {
    assert_eq!(
        aggregate(vec![e(3, "c"), e(1, "a")], vec![e(2, "b")], Direction::Forward),
        vec![e(3, "c"), e(1, "a"), e(2, "b")]
    );
}

#[test]
fn merging_an_unordered_b_still_gives_an_ordered_result() {
    let r = aggregate(vec![e(2, "b")], vec![e(5, "e"), e(1, "a"), e(3, "c")], Direction::Backward);
    assert_eq!(r, vec![e(5, "e"), e(3, "c"), e(2, "b"), e(1, "a")]);
    for w in r.windows(2) {
        assert!(w[0].0 >= w[1].0);
    }
}

#[test]
fn merged_entries_are_those_of_both_sides() {
    let r = aggregate(vec![e(1, "a"), e(4, "d")], vec![e(2, "b"), e(4, "d"), e(3, "c")], Direction::Forward);
    assert_eq!(r.len(), 4);
    for x in [e(1, "a"), e(2, "b"), e(3, "c"), e(4, "d")] {
        assert!(r.contains(&x));
    }
}
