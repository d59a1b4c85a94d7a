use rsort::instrumented::Instrumented;
use rsort::sorts::bubble::{BubbleRun, BubbleSort, RenderBubbleSort};
use rsort::sorts::insertion::{InsertionRun, InsertionSort, RenderInsertionSort};
use rsort::sorts::quick::{QuickRun, QuickSort, RenderQuickSort};
use rsort::sorts::selection::{RenderSelectionSort, SelectionRun, SelectionSort};

#[test]
fn selection_sort_on_four_elements() {
    let mut v = vec![5, 3, 8, 1];
    SelectionSort::sort(&mut v);
    assert_eq!(v, vec![1, 3, 5, 8]);

    let mut log: Vec<[(usize, i32); 2]> = Vec::new();
    RenderSelectionSort::sort(vec![5, 3, 8, 1], &mut log);
    assert_eq!(log, vec![[(0, 1), (3, 5)], [(2, 5), (3, 8)]]);
}

#[test]
fn selection_run_steps_through_four_elements() {
    let mut run = SelectionRun::new(vec![5, 3, 8, 1]);
    assert_eq!(run.next_event(), Some([(0, 1), (3, 5)]));
    assert_eq!(run.next_event(), Some([(2, 5), (3, 8)]));
    assert_eq!(run.next_event(), None);
    assert_eq!(run.next_event(), None);
    assert_eq!(run.into_data(), vec![1, 3, 5, 8]);
}

#[test]
fn selection_takes_the_first_of_equal_minima() {
    // Both 1s are least; the scan keeps the first, at position 1.
    let mut log: Vec<[(usize, i32); 2]> = Vec::new();
    RenderSelectionSort::sort(vec![2, 1, 1], &mut log);
    assert_eq!(log, vec![[(0, 1), (1, 2)], [(1, 1), (2, 2)]]);
}

#[test]
fn bubble_sort_on_three_elements() {
    let mut v = vec![3, 1, 2];
    BubbleSort::sort(&mut v);
    assert_eq!(v, vec![1, 2, 3]);

    let mut log: Vec<[(usize, i32); 2]> = Vec::new();
    RenderBubbleSort::sort(vec![3, 1, 2], &mut log);
    assert_eq!(log, vec![[(0, 1), (1, 3)], [(1, 2), (2, 3)]]);
}

#[test]
fn bubble_run_steps_through_three_elements() {
    let mut run = BubbleRun::new(vec![3, 1, 2]);
    assert_eq!(run.next_event(), Some([(0, 1), (1, 3)]));
    assert_eq!(run.next_event(), Some([(1, 2), (2, 3)]));
    assert_eq!(run.next_event(), None);
    assert_eq!(run.next_event(), None);
    assert_eq!(run.into_data(), vec![1, 2, 3]);
}

#[test]
fn bubble_run_goes_on_into_a_second_pass() {
    // The first pass carries 3 to the end; the second exchanges 2 and 1.
    let mut run = BubbleRun::new(vec![3, 2, 1]);
    assert_eq!(run.next_event(), Some([(0, 2), (1, 3)]));
    assert_eq!(run.next_event(), Some([(1, 1), (2, 3)]));
    assert_eq!(run.next_event(), Some([(0, 1), (1, 2)]));
    assert_eq!(run.next_event(), None);
    assert_eq!(run.into_data(), vec![1, 2, 3]);
}

#[test]
fn insertion_sort_on_three_elements() {
    let mut v = vec![3, 1, 2];
    InsertionSort::sort(&mut v);
    assert_eq!(v, vec![1, 2, 3]);

    let mut log: Vec<[(usize, i32); 2]> = Vec::new();
    RenderInsertionSort::sort(vec![3, 1, 2], &mut log);
    assert_eq!(log, vec![[(0, 1), (1, 3)], [(1, 2), (2, 3)]]);
}

#[test]
fn insertion_run_walks_an_element_to_the_front() {
    let mut run = InsertionRun::new(vec![2, 3, 1]);
    assert_eq!(run.next_event(), Some([(1, 1), (2, 3)]));
    assert_eq!(run.next_event(), Some([(0, 1), (1, 2)]));
    assert_eq!(run.next_event(), None);
    assert_eq!(run.next_event(), None);
    assert_eq!(run.into_data(), vec![1, 2, 3]);
}

#[test]
fn quick_sort_on_three_elements() {
    let mut v = vec![3, 1, 2];
    QuickSort::sort(&mut v);
    assert_eq!(v, vec![1, 2, 3]);

    // The pointers exchange 3 and the pivot 2; 3, now last, is placed where
    // it stands; the left part is exchanged and its pivot placed likewise.
    let mut log: Vec<[(usize, i32); 2]> = Vec::new();
    RenderQuickSort::sort(vec![3, 1, 2], &mut log);
    assert_eq!(
        log,
        vec![[(0, 2), (2, 3)], [(2, 3), (2, 3)], [(0, 1), (1, 2)], [(1, 2), (1, 2)]]
    );
}

#[test]
fn quick_run_places_pivots_of_a_sorted_input() {
    let mut run = QuickRun::new(vec![1, 2, 3]);
    assert_eq!(run.next_event(), Some([(2, 3), (2, 3)]));
    assert_eq!(run.next_event(), Some([(1, 2), (1, 2)]));
    assert_eq!(run.next_event(), None);
    assert_eq!(run.next_event(), None);
    assert_eq!(run.into_data(), vec![1, 2, 3]);
}

#[test]
fn quick_run_sorts_the_left_part_before_the_right() {
    // The partition ends with 3 placed at position 2; the two elements left
    // of it report before the two right of it.
    let mut log: Vec<[(usize, i32); 2]> = Vec::new();
    RenderQuickSort::sort(vec![3, 9, 1, 8, 2], &mut log);
    assert_eq!(
        log,
        vec![
            [(0, 2), (4, 3)],
            [(1, 1), (2, 9)],
            [(2, 3), (4, 9)],
            [(0, 1), (1, 2)],
            [(1, 2), (1, 2)],
            [(4, 9), (4, 9)],
        ]
    );
}

#[test]
fn quick_sort_compares_with_what_stands_last() {
    // Once the pointers have exchanged the pivot 3 for 5, the scans go on
    // against 5, which now stands last.
    let mut log: Vec<[(usize, i32); 2]> = Vec::new();
    RenderQuickSort::sort(vec![2, 1, 5, 4, 3], &mut log);
    assert_eq!(
        log,
        vec![
            [(2, 3), (4, 5)],
            [(4, 5), (4, 5)],
            [(3, 4), (3, 4)],
            [(2, 3), (2, 3)],
            [(0, 1), (1, 2)],
            [(1, 2), (1, 2)],
        ]
    );
}
