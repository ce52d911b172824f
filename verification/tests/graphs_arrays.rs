//! Checks of the graph and array algorithms.

use std::collections::HashMap;

use algorithms::arrays::dutch_national_flag::{
    dutch_flag_partition, dutch_flag_partition_inplace, dutch_flag_sort_inplace, Color,
};
use algorithms::arrays::even_odd_array::even_odd;
use algorithms::arrays::sample::sample;
use algorithms::arrays::shuffle::shuffle;
use algorithms::graphs::connecting_cities_with_minimum_cost;
use algorithms::graphs::kosaraju::kosaraju;
use algorithms::graphs::minimum_cost_to_connect_sticks;
use algorithms::graphs::rooted_topological_sort::rooted_topological_sort;

#[test]
fn connecting_cities_with_minimum_cost_ex1() {
    let res = connecting_cities_with_minimum_cost::minimum_cost(
        3,
        vec![(1, 2, 5), (1, 3, 6), (2, 3, 1)],
    );

    assert_eq!(res, Some(6));
}

#[test]
fn connecting_cities_with_minimum_cost_ex2() {
    let res = connecting_cities_with_minimum_cost::minimum_cost(4, vec![(1, 2, 3), (3, 4, 4)]);

    assert_eq!(res, None);
}

#[test]
fn connecting_cities_with_minimum_cost_ex3() {
    let res = connecting_cities_with_minimum_cost::minimum_cost(4, vec![(1, 2, 3), (3, 4, 4)]);

    assert_eq!(res, None);
}

#[test]
fn minimum_cost_to_connect_sticks_ex1() {
    let cost = minimum_cost_to_connect_sticks::minimum_cost(&[2, 4, 3]);
    assert_eq!(cost, 14);
}

#[test]
fn minimum_cost_to_connect_sticks_ex2() {
    let cost = minimum_cost_to_connect_sticks::minimum_cost(&[1, 8, 3, 5]);
    assert_eq!(cost, 30);
}

#[test]
fn minimum_cost_to_connect_sticks_ex3() {
    let cost = minimum_cost_to_connect_sticks::minimum_cost(&[5]);
    assert_eq!(cost, 0);
}

#[test]
fn kosaraju_example() {
    let input = HashMap::from([
        (0, vec![1, 2]),
        (1, vec![0, 2]),
        (2, vec![0, 1]),
        (3, vec![4]),
        (4, vec![5]),
        (5, vec![3]),
        (6, vec![7]),
        (7, vec![]),
    ]);

    let result = kosaraju(input);
    let mut sorted: Vec<Vec<u32>> = result.values().cloned().collect();
    sorted.iter_mut().for_each(|i| i.sort());
    sorted.sort();
    assert_eq!(sorted, vec![vec![0, 1, 2], vec![3, 4, 5], vec![6], vec![7]]);
}

#[test]
fn empty() {
    let input = HashMap::from([(0, vec![])]);

    let result = kosaraju(input);
    let mut sorted: Vec<Vec<u32>> = result.values().cloned().collect();
    sorted.iter_mut().for_each(|i| i.sort());
    sorted.sort();
    assert_eq!(sorted, vec![vec![0]]);
}

#[test]
fn kosaraju_empty_graph() {
    let result = kosaraju(HashMap::new());
    assert!(result.is_empty());
}

#[test]
fn rooted_topological_sort_example() {
    let chart = vec![
        (6, 5, "acolyte1".to_string()),
        (7, 4, "acolyte2".to_string()),
        (2, 1, "sylvanas".to_string()),
        (3, 1, "anubarak".to_string()),
        (4, 2, "commander1".to_string()),
        (1, 1, "arthas".to_string()),
        (5, 3, "commander2".to_string()),
    ];

    let result = rooted_topological_sort(&chart).unwrap();
    assert_eq!(result[0], (0, "arthas".to_string()));
    assert_eq!(result.len(), 7);
    // children are walked before their parents' later peers
    let names: Vec<&str> = result.iter().map(|r| r.1.as_str()).collect();
    assert!(names.contains(&"acolyte1"));
    assert!(names.contains(&"commander2"));
}

#[test]
fn rooted_topological_sort_needs_a_root() {
    let chart = vec![(2, 1, "a".to_string()), (3, 1, "b".to_string())];
    assert!(rooted_topological_sort(&chart).is_none());
}

#[test]
fn dutch_flag_partitions() {
    let (r, w, b) = (Color::Red, Color::White, Color::Blue);
    let flag = [b, r, w, r, b, w, r];
    let sorted = dutch_flag_partition(&flag);
    assert_eq!(sorted, vec![r, r, r, w, w, b, b]);

    let mut flag2 = flag.to_vec();
    dutch_flag_partition_inplace(&mut flag2);
    assert_eq!(flag2, sorted);

    let mut flag3 = flag.to_vec();
    dutch_flag_sort_inplace(&mut flag3);
    let mut counts = flag3.clone();
    counts.sort();
    assert_eq!(counts, sorted);
}

#[test]
fn even_odd_partitions_in_place() {
    let mut arr = vec![1, 4, 2, 7, 9, 8, 3];
    even_odd(&mut arr);
    let split = arr.iter().position(|x| x % 2 != 0).unwrap_or(arr.len());
    assert!(arr[..split].iter().all(|x| x % 2 == 0));
    assert!(arr[split..].iter().all(|x| x % 2 != 0));
    let mut sorted = arr.clone();
    sorted.sort();
    assert_eq!(sorted, vec![1, 2, 3, 4, 7, 8, 9]);
}

#[test]
fn shuffle_keeps_elements() {
    let mut v: Vec<u32> = (0..50).collect();
    shuffle(&mut v);
    let mut sorted = v.clone();
    sorted.sort();
    assert_eq!(sorted, (0..50).collect::<Vec<u32>>());
}

#[test]
fn sample_draws_from_the_stream() {
    let nums = vec![1, 2, 3, 4, 5];
    let res = sample(nums.clone(), 3);
    assert_eq!(res.len(), 3);
    for x in &res {
        assert!(nums.contains(x));
    }
    let small = sample(vec![9, 9], 5);
    assert_eq!(small, vec![9, 9]);
}
