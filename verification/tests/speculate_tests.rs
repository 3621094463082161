use speclex::{specfold, speculate};

fn final_values(results: Vec<(i64, i64)>) -> Vec<i64> {
    results.into_iter().map(|p| p.1).collect()
}

#[test]
fn test_spec() {
    assert!(speculate(|| 2 + 2, || 4, |x: i64| x + 2) == 6);
    assert!(speculate(|| 2 + 2, || 1, |x: i64| x + 2) == 6);
}

#[test]
fn test_specfold_correct_prediction() {
    let loop_results: [i64; 5] = [0, 0, 1, 3, 6];
    let loop_body = || |idx: usize, val: i64| idx as i64 + val;
    let predictor = move || move |idx: usize| loop_results[idx];
    let (stats, results) = specfold(5, loop_body, predictor);
    assert!(final_values(results) == vec![0, 1, 3, 6, 10]);
    assert!(stats.mispredictions.iter().all(|m| !*m));
}

#[test]
fn test_specfold_incorrect_prediction() {
    let loop_body = || |idx: usize, val: i64| idx as i64 + val;
    let predictor = || |_idx: usize| 0i64;
    let (stats, results) = specfold(5, loop_body, predictor);
    assert!(final_values(results) == vec![0, 1, 3, 6, 10]);
    assert!(stats.mispredictions == vec![false, false, true, true, true]);
}

#[test]
fn test_specfold_single_task() {
    let loop_body = || |idx: usize, val: i64| idx as i64 + val + 5;
    let predictor = || |_idx: usize| 0i64;
    let (_stats, results) = specfold(1, loop_body, predictor);
    assert!(final_values(results) == vec![5]);
}

#[test]
fn test_specfold_no_tasks() {
    let loop_body = || |idx: usize, val: i64| idx as i64 + val + 5;
    let predictor = || |_idx: usize| 0i64;
    let (stats, results) = specfold(0, loop_body, predictor);
    assert!(final_values(results) == vec![]);
    assert!(stats.mispredictions.is_empty());
}

#[test]
fn speculate_runs_consumer_on_produced_value() {
    let doubled = speculate(|| 21i64, || 0i64, |x: i64| x * 2);
    assert_eq!(doubled, 42);
}
