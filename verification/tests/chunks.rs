use parmap::chunks::{assemble, partition};
use parmap::{plan, plan_with, run_plan, run_tasks, serial_map, Plan, Strategy};

fn square(x: u32) -> u32 {
    x * x
}

#[test]
fn partition_cuts_even_chunks() {
    let parts = partition(vec![1, 2, 3, 4, 5, 6], 2);
    assert_eq!(parts, vec![vec![1, 2], vec![3, 4], vec![5, 6]]);
}

#[test]
fn partition_leaves_the_rest_in_the_last_chunk() {
    let parts = partition(vec![1, 2, 3, 4, 5, 6, 7], 3);
    assert_eq!(parts, vec![vec![1, 2, 3], vec![4, 5, 6], vec![7]]);
}

#[test]
fn partition_of_nothing_has_no_chunk() {
    let parts: Vec<Vec<u8>> = partition(Vec::new(), 300);
    assert!(parts.is_empty());
}

#[test]
fn partition_of_a_short_input_is_one_chunk() {
    assert_eq!(partition(vec![8, 9], 300), vec![vec![8, 9]]);
    assert_eq!(partition(vec![8, 9], 2), vec![vec![8, 9]]);
}

#[test]
fn partition_by_one_gives_singletons() {
    assert_eq!(partition(vec!['a', 'b', 'c'], 1), vec![vec!['a'], vec!['b'], vec!['c']]);
}

#[test]
fn partition_of_two_thousand_by_three_hundred() {
    let input: Vec<u32> = (0..2000).collect();
    let parts = partition(input.clone(), 300);
    let sizes: Vec<usize> = parts.iter().map(|p| p.len()).collect();
    assert_eq!(sizes, vec![300, 300, 300, 300, 300, 300, 200]);
    assert_eq!(parts[6][0], 1800);
    assert_eq!(assemble(parts), input);
}

#[test]
fn assemble_joins_in_order() {
    let parts = vec![vec![1, 2], vec![], vec![3], vec![4, 5, 6]];
    assert_eq!(assemble(parts), vec![1, 2, 3, 4, 5, 6]);
    let none: Vec<Vec<i32>> = Vec::new();
    assert_eq!(assemble(none), Vec::<i32>::new());
}

#[test]
fn serial_map_applies_in_order() {
    assert_eq!(serial_map(vec![1, 2, 3], square), vec![1, 4, 9]);
    assert_eq!(serial_map(Vec::new(), square), Vec::<u32>::new());
}

#[test]
fn run_tasks_maps_every_task() {
    let tasks = vec![vec![1, 2], vec![3], vec![]];
    assert_eq!(run_tasks(tasks, square), vec![vec![1, 4], vec![9], vec![]]);
}

#[test]
fn plan_of_a_short_input_is_inline() {
    match plan(vec![1, 2, 3]) {
        Plan::Inline(items) => assert_eq!(items, vec![1, 2, 3]),
        Plan::Spawn(_) => panic!("a short input spawns nothing"),
    }
}

#[test]
fn plan_of_a_middle_input_has_a_task_for_each_element() {
    match plan(vec![5, 6, 7, 8]) {
        Plan::Inline(_) => panic!("four elements are spawned"),
        Plan::Spawn(tasks) => assert_eq!(tasks, vec![vec![5], vec![6], vec![7], vec![8]]),
    }
    let thousand: Vec<u32> = (0..1000).collect();
    match plan(thousand) {
        Plan::Inline(_) => panic!("a thousand elements are spawned"),
        Plan::Spawn(tasks) => {
            assert_eq!(tasks.len(), 1000);
            assert_eq!(tasks[999], vec![999]);
        }
    }
}

#[test]
fn plan_of_a_long_input_is_chunked() {
    let input: Vec<u32> = (0..1001).collect();
    match plan(input) {
        Plan::Inline(_) => panic!("a long input is spawned"),
        Plan::Spawn(tasks) => {
            let sizes: Vec<usize> = tasks.iter().map(|t| t.len()).collect();
            assert_eq!(sizes, vec![300, 300, 300, 101]);
            assert_eq!(tasks[3][100], 1000);
        }
    }
}

#[test]
fn plan_with_follows_the_strategy() {
    match plan_with(vec![1, 2, 3, 4, 5], Strategy::Serial) {
        Plan::Inline(items) => assert_eq!(items, vec![1, 2, 3, 4, 5]),
        Plan::Spawn(_) => panic!("serial spawns nothing"),
    }
    match plan_with(vec![1, 2, 3, 4, 5], Strategy::Chunked { chunk_size: 2 }) {
        Plan::Inline(_) => panic!("chunks are spawned"),
        Plan::Spawn(tasks) => assert_eq!(tasks, vec![vec![1, 2], vec![3, 4], vec![5]]),
    }
    match plan_with(vec![1, 2], Strategy::OneTaskPerElement) {
        Plan::Inline(_) => panic!("elements are spawned"),
        Plan::Spawn(tasks) => assert_eq!(tasks, vec![vec![1], vec![2]]),
    }
}

#[test]
fn run_plan_gives_results_in_input_order() {
    let inline = Plan::Inline(vec![3, 1, 2]);
    assert_eq!(run_plan(inline, square), vec![9, 1, 4]);
    let spawned = Plan::Spawn(vec![vec![3, 1], vec![2], vec![], vec![5, 4]]);
    assert_eq!(run_plan(spawned, square), vec![9, 1, 4, 25, 16]);
    let input: Vec<u32> = (0..1001).collect();
    let expected: Vec<u32> = input.iter().map(|x| x * x).collect();
    assert_eq!(run_plan(plan(input), square), expected);
}
