use std::collections::HashMap;

use rand::Rng;
use rayon::prelude::{IntoParallelIterator, ParallelIterator};
use rsort::runner::Runner;
use rsort::variant::AlgorithmVariant;

const DS_COUNT: i32 = 5;

#[test]
fn parallelize() {
    let res: Vec<(i32, Vec<(String, bool)>)> = [1, 2, 3]
        .map(|x| vec![(10 * i32::pow(10, x)) as usize; DS_COUNT as usize])
        .concat()
        .into_par_iter()
        .map(|index| {
            (index as i32, {
                let mut data_set = vec![0; index];
                let mut thread_rng = rand::thread_rng();
                for i in 0..index {
                    data_set[i] = thread_rng.gen_range(1..2147483647)
                }
                let mut expected = data_set.clone();
                expected.sort_unstable();
                let runner = Runner::<i32>::_new(data_set);
                AlgorithmVariant::all()
                    .into_iter()
                    .map(|variant| {
                        let mut copy = runner.data_set().clone();
                        variant.sort(&mut copy);
                        (variant.name().to_string(), copy == expected)
                    })
                    .collect()
            })
        })
        .collect();

    let mut map: HashMap<String, Vec<(i32, bool)>> = HashMap::new();

    for (k, v) in res {
        for (t, x) in v {
            (*map.entry(t).or_default()).push((k, x))
        }
    }

    assert_eq!(map.len(), 4);
    for variant in AlgorithmVariant::all() {
        let outcomes = &map[variant.name()];
        assert_eq!(outcomes.len(), 3 * DS_COUNT as usize);
        assert!(outcomes.iter().all(|(_, sorted)| *sorted));
    }
}
