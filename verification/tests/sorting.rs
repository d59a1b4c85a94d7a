use rsort::sorts::bubble::BubbleSort;
use rsort::sorts::insertion::InsertionSort;
use rsort::sorts::quick::QuickSort;
use rsort::sorts::selection::SelectionSort;
use rsort::variant::AlgorithmVariant;

/// A value that is ordered by its key alone.
#[derive(Clone, Debug, PartialEq)]
struct Keyed {
    key: i32,
    tag: char,
}

impl PartialOrd for Keyed {
    fn partial_cmp(&self, other: &Self) -> Option<std::cmp::Ordering> {
        self.key.partial_cmp(&other.key)
    }
}

fn keyed(key: i32, tag: char) -> Keyed {
    Keyed { key, tag }
}

fn samples() -> Vec<Vec<i32>> {
    let mut all = vec![
        vec![],
        vec![7],
        vec![1, 2],
        vec![2, 1],
        vec![1, 1],
        vec![5, 3, 8, 1],
        vec![3, 1, 2],
        vec![1, 2, 3, 4, 5, 6],
        vec![6, 5, 4, 3, 2, 1],
        vec![4, 4, 4, 4],
        vec![2, 7, 2, 7, 1, 9, 1, 9, 0],
        vec![i32::MAX, i32::MIN, 0, -1, 1],
    ];
    // A fixed scramble of 0..200, and one with many repeats.
    let mut scrambled = Vec::new();
    let mut repeats = Vec::new();
    let mut x: u32 = 12345;
    for _ in 0..200 {
        x = x.wrapping_mul(1103515245).wrapping_add(12345);
        scrambled.push((x >> 8) as i32 % 1000);
        repeats.push((x >> 16) as i32 % 7);
    }
    all.push(scrambled);
    all.push(repeats);
    all
}

fn expected(input: &Vec<i32>) -> Vec<i32> {
    let mut sorted = input.clone();
    sorted.sort_unstable();
    sorted
}

#[test]
fn selection_sort_sorts_every_sample() {
    for input in samples() {
        let mut v = input.clone();
        SelectionSort::sort(&mut v);
        assert_eq!(v, expected(&input));
    }
}

#[test]
fn bubble_sort_sorts_every_sample() {
    for input in samples() {
        let mut v = input.clone();
        BubbleSort::sort(&mut v);
        assert_eq!(v, expected(&input));
    }
}

#[test]
fn insertion_sort_sorts_every_sample() {
    for input in samples() {
        let mut v = input.clone();
        InsertionSort::sort(&mut v);
        assert_eq!(v, expected(&input));
    }
}

#[test]
fn quick_sort_sorts_every_sample() {
    for input in samples() {
        let mut v = input.clone();
        QuickSort::sort(&mut v);
        assert_eq!(v, expected(&input));
    }
}

#[test]
fn every_variant_sorts_every_sample() {
    for variant in AlgorithmVariant::all() {
        for input in samples() {
            let mut v = input.clone();
            variant.sort(&mut v);
            assert_eq!(v, expected(&input));
        }
    }
}

#[test]
fn short_sequences_are_left_as_they_are() {
    for variant in AlgorithmVariant::all() {
        let mut none: Vec<i32> = vec![];
        variant.sort(&mut none);
        assert_eq!(none, Vec::<i32>::new());
        let mut one = vec![42];
        variant.sort(&mut one);
        assert_eq!(one, vec![42]);
    }
}

#[test]
fn strings_are_sorted_too() {
    for variant in AlgorithmVariant::all() {
        let mut words = vec!["pear".to_string(), "apple".to_string(), "fig".to_string()];
        variant.sort(&mut words);
        assert_eq!(words, vec!["apple".to_string(), "fig".to_string(), "pear".to_string()]);
    }
}

#[test]
fn elements_with_equal_keys_end_in_key_order() {
    let input = vec![keyed(2, 'a'), keyed(1, 'b'), keyed(2, 'c'), keyed(1, 'd'), keyed(0, 'e')];
    for variant in AlgorithmVariant::all() {
        let mut v = input.clone();
        variant.sort(&mut v);
        let keys: Vec<i32> = v.iter().map(|k| k.key).collect();
        assert_eq!(keys, vec![0, 1, 1, 2, 2]);
        let mut tags: Vec<char> = v.iter().map(|k| k.tag).collect();
        tags.sort_unstable();
        assert_eq!(tags, vec!['a', 'b', 'c', 'd', 'e']);
    }
}

#[test]
fn bubble_and_insertion_keep_equal_keys_in_their_order() {
    let input = vec![keyed(2, 'a'), keyed(1, 'b'), keyed(2, 'c'), keyed(1, 'd'), keyed(0, 'e')];
    let stable = vec![keyed(0, 'e'), keyed(1, 'b'), keyed(1, 'd'), keyed(2, 'a'), keyed(2, 'c')];
    let mut v = input.clone();
    BubbleSort::sort(&mut v);
    assert_eq!(v, stable);
    let mut v = input.clone();
    InsertionSort::sort(&mut v);
    assert_eq!(v, stable);
}

#[test]
fn quick_sort_may_reorder_equal_keys_of_a_sorted_input() {
    // Sorted by key already; the partition still exchanges the two elements.
    let mut v = vec![keyed(1, 'a'), keyed(1, 'b')];
    QuickSort::sort(&mut v);
    assert_eq!(v, vec![keyed(1, 'b'), keyed(1, 'a')]);
}
