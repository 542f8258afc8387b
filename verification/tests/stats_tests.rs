use snakes_and_ladders::{min_avg_max, Board, Mean, MultiSimResult, Sim, Unrollable};
use std::collections::HashMap;

fn average(mean: Mean) -> f64 {
    mean.total as f64 / mean.count as f64
}

fn spread(sequence: Vec<usize>) -> (usize, f64, usize) {
    let (lo, mean, hi) = min_avg_max(sequence).unwrap();
    (lo, average(mean), hi)
}

#[test]
fn test_min_max_average() {
    assert!(min_avg_max(vec![]).is_none());
    assert_eq!(spread(vec![5]), (5, 5.0, 5));
    assert_eq!(spread(vec![8, 0, 3]), (0, 11.0 / 3.0, 8));
    assert_eq!(spread(vec![1, 2, 3]), (1, 2.0, 3));
}

#[test]
fn test_empty_multi_sim_result() {
    let b = Board::new(100, HashMap::new()).unwrap();
    let rng = Box::new(Unrollable {});
    let sim = Sim::new(b, rng);
    let result: MultiSimResult = MultiSimResult::from_sims(&vec![sim]);
    assert_eq!(result.min_rolls, 0);
    assert_eq!(average(result.avg_rolls), 0.0);
    assert_eq!(result.max_rolls, 0);
    assert_eq!(result.min_climb, 0);
    assert_eq!(average(result.avg_climb), 0.0);
    assert_eq!(result.max_climb, 0);
    assert_eq!(result.min_slide, 0);
    assert_eq!(average(result.avg_slide), 0.0);
    assert_eq!(result.max_slide, 0);
    assert_eq!(result.biggest_turn_climb, 0);
    assert_eq!(result.biggest_turn_slide, 0);
    assert_eq!(result.longest_turn, vec![]);
    assert_eq!(result.min_lucky_rolls, 0);
    assert_eq!(average(result.avg_lucky_rolls), 0.0);
    assert_eq!(result.max_lucky_rolls, 0);
    assert_eq!(result.min_unlucky_rolls, 0);
    assert_eq!(average(result.avg_unlucky_rolls), 0.0);
    assert_eq!(result.max_unlucky_rolls, 0);
    let zero = Mean { total: 0, count: 1 };
    assert_eq!(
        result,
        MultiSimResult {
            min_rolls: 0,
            avg_rolls: zero,
            max_rolls: 0,
            min_climb: 0,
            avg_climb: zero,
            max_climb: 0,
            min_slide: 0,
            avg_slide: zero,
            max_slide: 0,
            biggest_turn_climb: 0,
            biggest_turn_slide: 0,
            longest_turn: vec![],
            min_lucky_rolls: 0,
            avg_lucky_rolls: zero,
            max_lucky_rolls: 0,
            min_unlucky_rolls: 0,
            avg_unlucky_rolls: zero,
            max_unlucky_rolls: 0
        }
    )
}
