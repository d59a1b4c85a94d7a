use rsort::instrumented::{record, Instrumented};
use rsort::sorts::bubble::RenderBubbleSort;
use rsort::sorts::insertion::RenderInsertionSort;
use rsort::sorts::quick::RenderQuickSort;
use rsort::sorts::selection::RenderSelectionSort;
use rsort::variant::AlgorithmVariant;
use rsort::Msg;

fn inputs() -> Vec<Vec<i32>> {
    let mut all = vec![
        vec![],
        vec![7],
        vec![2, 1],
        vec![1, 1],
        vec![5, 3, 8, 1],
        vec![3, 1, 2],
        vec![6, 5, 4, 3, 2, 1],
        vec![2, 7, 2, 7, 1, 9, 1, 9, 0],
    ];
    let mut scrambled = Vec::new();
    let mut x: u32 = 777;
    for _ in 0..64 {
        x = x.wrapping_mul(1103515245).wrapping_add(12345);
        scrambled.push((x >> 8) as i32 % 50);
    }
    all.push(scrambled);
    all
}

fn sorted(input: &Vec<i32>) -> Vec<i32> {
    let mut v = input.clone();
    v.sort_unstable();
    v
}

#[test]
fn replaying_the_events_sorts_a_copy() {
    for variant in AlgorithmVariant::all() {
        for input in inputs() {
            let mut log = Vec::new();
            let result = record(variant.start(input.clone()), &mut log);
            assert_eq!(result, sorted(&input));
            let mut mirror = input.clone();
            for ev in log {
                Msg::Data(ev).apply_to(&mut mirror);
            }
            assert_eq!(mirror, sorted(&input));
        }
    }
}

#[test]
fn each_event_reports_one_exchange() {
    for variant in AlgorithmVariant::all() {
        for input in inputs() {
            let mut run = variant.start(input.clone());
            let mut mirror = input.clone();
            while let Some(ev) = run.next_event() {
                let [(i, at_i), (j, at_j)] = ev;
                assert!(i < input.len() && j < input.len());
                // The event holds what stands at both positions after the
                // exchange: each other's values from before it.
                assert_eq!(at_i, mirror[j]);
                assert_eq!(at_j, mirror[i]);
                mirror.swap(i, j);
            }
            assert_eq!(mirror, sorted(&input));
        }
    }
}

#[test]
fn selection_bubble_and_insertion_report_only_real_exchanges() {
    for variant in
        [AlgorithmVariant::Selection, AlgorithmVariant::Bubble, AlgorithmVariant::Insertion]
    {
        for input in inputs() {
            let mut log = Vec::new();
            record(variant.start(input.clone()), &mut log);
            for [(i, _), (j, _)] in log {
                assert_ne!(i, j);
            }
        }
    }
}

#[test]
fn bubble_and_insertion_make_one_exchange_for_each_inversion() {
    for input in inputs() {
        let mut inversions = 0;
        for a in 0..input.len() {
            for b in a + 1..input.len() {
                if input[a] > input[b] {
                    inversions += 1;
                }
            }
        }
        let mut log = Vec::new();
        RenderBubbleSort::sort(input.clone(), &mut log);
        assert_eq!(log.len(), inversions);
        let mut log = Vec::new();
        RenderInsertionSort::sort(input.clone(), &mut log);
        assert_eq!(log.len(), inversions);
    }
}

#[test]
fn short_sequences_emit_nothing() {
    for variant in AlgorithmVariant::all() {
        let mut run = variant.start(Vec::<i32>::new());
        assert_eq!(run.next_event(), None);
        let mut run = variant.start(vec![9]);
        assert_eq!(run.next_event(), None);
        assert_eq!(run.into_data(), vec![9]);
    }
    let mut log: Vec<[(usize, i32); 2]> = Vec::new();
    RenderSelectionSort::sort(vec![1], &mut log);
    RenderBubbleSort::sort(vec![1], &mut log);
    RenderInsertionSort::sort(vec![1], &mut log);
    RenderQuickSort::sort(vec![1], &mut log);
    RenderSelectionSort::sort(Vec::<i32>::new(), &mut log);
    RenderBubbleSort::sort(Vec::<i32>::new(), &mut log);
    RenderInsertionSort::sort(Vec::<i32>::new(), &mut log);
    RenderQuickSort::sort(Vec::<i32>::new(), &mut log);
    assert!(log.is_empty());
}

#[test]
fn sorted_input_emits_nothing_but_under_quicksort() {
    let input = vec![1, 2, 2, 3, 5, 8];
    for variant in
        [AlgorithmVariant::Selection, AlgorithmVariant::Bubble, AlgorithmVariant::Insertion]
    {
        let mut run = variant.start(input.clone());
        assert_eq!(run.next_event(), None);
        assert_eq!(run.into_data(), input);
    }
    let mut log = Vec::new();
    let result = record(AlgorithmVariant::Quick.start(input.clone()), &mut log);
    assert_eq!(result, input);
    assert!(!log.is_empty());
}

#[test]
fn the_log_keeps_what_it_held() {
    let mut log = vec![[(9, 9), (9, 9)]];
    RenderSelectionSort::sort(vec![2, 1], &mut log);
    assert_eq!(log, vec![[(9, 9), (9, 9)], [(0, 1), (1, 2)]]);
    RenderQuickSort::sort(vec![2, 1], &mut log);
    assert_eq!(
        log,
        vec![[(9, 9), (9, 9)], [(0, 1), (1, 2)], [(0, 1), (1, 2)], [(1, 2), (1, 2)]]
    );
}

#[test]
fn a_run_ends_for_good() {
    for variant in AlgorithmVariant::all() {
        let mut run = variant.start(vec![4, 3, 2, 1]);
        let mut events = 0;
        while run.next_event().is_some() {
            events += 1;
            assert!(events <= 16);
        }
        for _ in 0..4 {
            assert_eq!(run.next_event(), None);
        }
        assert_eq!(run.into_data(), vec![1, 2, 3, 4]);
    }
}

#[test]
fn a_message_updates_both_positions() {
    let mut mirror = vec![10, 20, 30];
    Msg::Data([(0, 30), (2, 10)]).apply_to(&mut mirror);
    assert_eq!(mirror, vec![30, 20, 10]);
    Msg::Data([(1, 5), (1, 6)]).apply_to(&mut mirror);
    assert_eq!(mirror, vec![30, 6, 10]);
}

#[test]
fn both_forms_agree_on_many_inputs() {
    let mut x: u32 = 2024;
    for round in 0..300 {
        let len = round % 37;
        let mut input = Vec::new();
        for _ in 0..len {
            x = x.wrapping_mul(1103515245).wrapping_add(12345);
            input.push((x >> 8) as i32 % 23);
        }
        for variant in AlgorithmVariant::all() {
            let mut silent = input.clone();
            variant.sort(&mut silent);
            assert_eq!(silent, sorted(&input));

            let mut log = Vec::new();
            let result = record(variant.start(input.clone()), &mut log);
            assert_eq!(result, silent);

            // Making the reported exchanges on a copy is making the sort.
            let mut copy = input.clone();
            for [(i, _), (j, _)] in &log {
                copy.swap(*i, *j);
            }
            assert_eq!(copy, silent);
        }
    }
}
