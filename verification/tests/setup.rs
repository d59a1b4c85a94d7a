use rsort::data::{gen_random_data, value_bounds, LEAST_VALUE, VALUE_LIMIT};
use rsort::instrumented::{record, Instrumented};
use rsort::panel::GraphComponentProperties;
use rsort::runner::Runner;
use rsort::variant::AlgorithmVariant;

#[test]
fn variants_have_their_names() {
    assert_eq!(AlgorithmVariant::Selection.name(), "selection");
    assert_eq!(AlgorithmVariant::Bubble.name(), "bubble");
    assert_eq!(AlgorithmVariant::Insertion.name(), "insertion");
    assert_eq!(AlgorithmVariant::Quick.name(), "quick");
}

#[test]
fn variants_are_found_by_name() {
    assert_eq!(AlgorithmVariant::from_name("selection"), Some(AlgorithmVariant::Selection));
    assert_eq!(AlgorithmVariant::from_name("bubble"), Some(AlgorithmVariant::Bubble));
    assert_eq!(AlgorithmVariant::from_name("insertion"), Some(AlgorithmVariant::Insertion));
    assert_eq!(AlgorithmVariant::from_name("quick"), Some(AlgorithmVariant::Quick));
    assert_eq!(AlgorithmVariant::from_name("merge"), None);
    assert_eq!(AlgorithmVariant::from_name(""), None);
    assert_eq!(AlgorithmVariant::from_name("Quick"), None);
    for variant in AlgorithmVariant::all() {
        assert_eq!(AlgorithmVariant::from_name(variant.name()), Some(variant));
    }
}

#[test]
fn variants_come_in_their_order() {
    assert_eq!(
        AlgorithmVariant::all(),
        [
            AlgorithmVariant::Selection,
            AlgorithmVariant::Bubble,
            AlgorithmVariant::Insertion,
            AlgorithmVariant::Quick,
        ]
    );
}

#[test]
fn variants_have_their_colours() {
    assert_eq!(AlgorithmVariant::Selection.colour(), "red");
    assert_eq!(AlgorithmVariant::Bubble.colour(), "blue");
    assert_eq!(AlgorithmVariant::Insertion.colour(), "orange");
    assert_eq!(AlgorithmVariant::Quick.colour(), "green");
}

#[test]
fn variants_have_their_pacing() {
    assert_eq!(AlgorithmVariant::Selection.pacing_nanos(), 1);
    assert_eq!(AlgorithmVariant::Bubble.pacing_nanos(), 1);
    assert_eq!(AlgorithmVariant::Insertion.pacing_nanos(), 0);
    assert_eq!(AlgorithmVariant::Quick.pacing_nanos(), 1);
}

#[test]
fn random_data_has_the_size_and_the_range() {
    assert_eq!(gen_random_data(0), Vec::<i32>::new());
    for size in [1, 10, 250] {
        let data = gen_random_data(size);
        assert_eq!(data.len(), size);
        for value in data {
            assert!(LEAST_VALUE <= value && value < VALUE_LIMIT);
        }
    }
    assert_eq!(LEAST_VALUE, 1);
    assert_eq!(VALUE_LIMIT, 2147483647);
}

#[test]
fn random_data_is_not_one_value_over_and_over() {
    let data = gen_random_data(1000);
    assert!(data.iter().any(|value| *value != data[0]));
    assert!(data.iter().any(|value| *value != LEAST_VALUE));
}

#[test]
fn bounds_are_the_least_and_the_greatest() {
    assert_eq!(value_bounds(&vec![]), None);
    assert_eq!(value_bounds(&vec![4]), Some((4, 4)));
    assert_eq!(value_bounds(&vec![3, -2, 9, 0]), Some((-2, 9)));
    assert_eq!(value_bounds(&vec![9, 3, -2]), Some((-2, 9)));
    assert_eq!(value_bounds(&vec![i32::MAX, i32::MIN]), Some((i32::MIN, i32::MAX)));
}

#[test]
fn a_runner_keeps_its_data_set() {
    let runner = Runner::_new(vec![3, 1, 2]);
    assert_eq!(runner.data_set(), &vec![3, 1, 2]);
    let empty = Runner::<i32>::_new(vec![]);
    assert!(empty.data_set().is_empty());
}

#[test]
fn a_runner_gives_every_algorithm_the_same_input() {
    let data_set = gen_random_data(300);
    let mut expected = data_set.clone();
    expected.sort_unstable();
    let runner = Runner::_new(data_set);
    for variant in AlgorithmVariant::all() {
        let mut copy = runner.data_set().clone();
        variant.sort(&mut copy);
        assert_eq!(copy, expected);
    }
}

#[test]
fn a_panel_starts_the_algorithm_that_it_names() {
    let panel =
        GraphComponentProperties { message_type: "bubble".to_string(), data: vec![3, 1, 2] };
    assert_eq!(panel.variant(), Some(AlgorithmVariant::Bubble));
    assert_eq!(panel.bounds(), Some((1, 3)));
    let mut run = panel.start().unwrap();
    assert_eq!(run.next_event(), Some([(0, 1), (1, 3)]));
    let mut log = Vec::new();
    assert_eq!(record(run, &mut log), vec![1, 2, 3]);
    assert_eq!(log, vec![[(1, 2), (2, 3)]]);
    // The panel's own values are untouched.
    assert_eq!(panel.data, vec![3, 1, 2]);
}

#[test]
fn a_panel_with_an_unknown_name_starts_nothing() {
    let panel = GraphComponentProperties { message_type: "shell".to_string(), data: vec![2, 1] };
    assert_eq!(panel.variant(), None);
    assert!(panel.start().is_none());
    let empty = GraphComponentProperties { message_type: "quick".to_string(), data: vec![] };
    assert_eq!(empty.bounds(), None);
    assert!(empty.start().unwrap().next_event().is_none());
}
