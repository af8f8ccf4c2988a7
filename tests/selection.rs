use utility_ai::{choose_action, choose_action_fuzzy, WeightedAction};

fn four_options() -> Vec<WeightedAction<&'static str>> {
    vec![
        WeightedAction { action: "unexpected_action_one", weight: 100_000 },
        WeightedAction { action: "unexpected_action_two", weight: 200_000 },
        WeightedAction { action: "expected_action", weight: 500_000 },
        WeightedAction { action: "unexpected_action_four", weight: 400_000 },
    ]
}

fn near_pair_options() -> Vec<WeightedAction<&'static str>> {
    vec![
        WeightedAction { action: "unexpected_action_one", weight: 100_000 },
        WeightedAction { action: "expected_action_two", weight: 1_000_000 },
        WeightedAction { action: "unexpected_action_three", weight: 100_000 },
        WeightedAction { action: "expected_action", weight: 950_000 },
    ]
}

#[test]
fn returns_the_largest_action_from_a_list_of_actions() {
    let expected = "expected_action";
    assert_eq!(choose_action(four_options()), Some(expected));
}

#[test]
fn returns_the_last_action_from_a_list_where_the_weights_are_equal() {
    let expected = "expected_action";
    let options = vec![
        WeightedAction { action: "unexpected_action_one", weight: 100_000 },
        WeightedAction { action: "unexpected_action_two", weight: 100_000 },
        WeightedAction { action: "unexpected_action_three", weight: 100_000 },
        WeightedAction { action: expected, weight: 100_000 },
    ];
    assert_eq!(choose_action(options), Some(expected));
}

#[test]
fn returns_none_if_there_are_no_options() {
    let options: Vec<WeightedAction<&str>> = vec![];
    assert_eq!(choose_action(options), None);
}

#[test]
fn choose_returns_the_largest_action_from_a_list_of_actions() {
    let expected = "expected_action";
    let options = four_options();
    assert_eq!(choose_action_fuzzy(options.clone(), 0, 0), Some(expected));
    assert_eq!(choose_action_fuzzy(options, 0, 1_000_000), Some(expected));
}

#[test]
fn returns_an_action_based_on_weights_fuzziness_and_choice_offset() {
    let expected = "expected_action";
    let expected_2 = "expected_action_two";
    let options = near_pair_options();
    assert_eq!(choose_action_fuzzy(options.clone(), 100_000, 800_000), Some(expected));
    assert_eq!(choose_action_fuzzy(options, 100_000, 400_000), Some(expected_2));
}

#[test]
fn choose_returns_none_if_there_are_no_options() {
    let options: Vec<WeightedAction<&str>> = vec![];
    assert_eq!(choose_action(options), None);
}

#[test]
fn strict_choice_ignores_tied_weights_below_the_maximum() {
    let options = vec![
        WeightedAction::new("a", 300_000),
        WeightedAction::new("b", 900_000),
        WeightedAction::new("c", 300_000),
    ];
    assert_eq!(choose_action(options), Some("b"));
}

#[test]
fn strict_choice_takes_the_last_of_tied_maxima() {
    let options = vec![
        WeightedAction::new("first", 700_000),
        WeightedAction::new("low", 100_000),
        WeightedAction::new("second", 700_000),
        WeightedAction::new("lower", 600_000),
    ];
    assert_eq!(choose_action(options), Some("second"));
}

#[test]
fn strict_choice_of_one_candidate() {
    assert_eq!(choose_action(vec![WeightedAction::new(7u8, 0)]), Some(7u8));
}

#[test]
fn fuzzy_choice_on_empty_input_is_none() {
    let options: Vec<WeightedAction<&str>> = vec![];
    assert_eq!(choose_action_fuzzy(options, 100_000, 500_000), None);
}

#[test]
fn fuzzy_choice_splits_at_the_cumulative_share() {
    // The heavier candidate holds 1.0 / 1.95 of the eligible mass.
    let options = near_pair_options();
    assert_eq!(choose_action_fuzzy(options.clone(), 100_000, 512_820), Some("expected_action_two"));
    assert_eq!(choose_action_fuzzy(options.clone(), 100_000, 512_821), Some("expected_action"));
    assert_eq!(choose_action_fuzzy(options.clone(), 100_000, 0), Some("expected_action_two"));
    assert_eq!(choose_action_fuzzy(options, 100_000, 1_000_000), Some("expected_action"));
}

#[test]
fn fuzzy_choice_above_one_selects_nothing() {
    assert_eq!(choose_action_fuzzy(near_pair_options(), 100_000, 1_000_001), None);
}

#[test]
fn fuzzy_choice_with_zero_total_weight_selects_nothing() {
    let options = vec![WeightedAction::new("a", 0), WeightedAction::new("b", 0)];
    assert_eq!(choose_action_fuzzy(options, 0, 0), None);
}

#[test]
fn fuzzy_choice_with_wide_tolerance_walks_heaviest_first() {
    // All three are eligible; total 0.6, heaviest first: 0.4, 0.1 (x), 0.1 (y),
    // so the cumulative shares are 2/3, 5/6 and 1.
    let options = vec![
        WeightedAction::new("x", 100_000),
        WeightedAction::new("heavy", 400_000),
        WeightedAction::new("y", 100_000),
    ];
    assert_eq!(choose_action_fuzzy(options.clone(), 1_000_000, 600_000), Some("heavy"));
    assert_eq!(choose_action_fuzzy(options.clone(), 1_000_000, 666_666), Some("heavy"));
    assert_eq!(choose_action_fuzzy(options.clone(), 1_000_000, 700_000), Some("x"));
    assert_eq!(choose_action_fuzzy(options.clone(), 1_000_000, 833_333), Some("x"));
    assert_eq!(choose_action_fuzzy(options, 1_000_000, 900_000), Some("y"));
}

#[test]
fn fuzzy_choice_keeps_input_order_among_equal_weights() {
    let options = vec![
        WeightedAction::new("first", 500_000),
        WeightedAction::new("second", 500_000),
    ];
    assert_eq!(choose_action_fuzzy(options.clone(), 0, 0), Some("first"));
    assert_eq!(choose_action_fuzzy(options.clone(), 0, 500_000), Some("first"));
    assert_eq!(choose_action_fuzzy(options, 0, 500_001), Some("second"));
}

#[test]
fn fuzzy_choice_stops_at_the_first_candidate_beyond_tolerance() {
    let options = vec![
        WeightedAction::new("top", 600_000),
        WeightedAction::new("near", 550_000),
        WeightedAction::new("far", 400_000),
    ];
    // Eligible: top and near (total 1.15); far lies 0.2 below the top.
    assert_eq!(choose_action_fuzzy(options, 50_000, 1_000_000), Some("near"));
}

#[test]
fn candidates_compare_by_weight_and_equal_by_both_fields() {
    let a = WeightedAction::new("a", 300_000);
    let b = WeightedAction::new("b", 300_000);
    let c = WeightedAction::new("a", 400_000);
    assert_eq!(a.cmp(&b), std::cmp::Ordering::Equal);
    assert_eq!(a.cmp(&c), std::cmp::Ordering::Less);
    assert_eq!(c.cmp(&a), std::cmp::Ordering::Greater);
    assert!(a != b);
    assert!(a == WeightedAction::new("a", 300_000));
    assert_eq!(a.action, "a");
    assert_eq!(a.weight, 300_000);
}
