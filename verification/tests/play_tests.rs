use snakes_and_ladders::play::turn_is_greater;
use snakes_and_ladders::{
    min_avg_max, run_sim_batch, Board, Figure, Mean, MockDie, MultiSimResult, Roll, RollResult,
    Sim, Unrollable, DIE_SIZE,
};
use std::collections::HashMap;

fn board(size: usize, routes: &[(usize, usize)]) -> Board {
    Board::new(size, routes.iter().cloned().collect::<HashMap<usize, usize>>()).unwrap()
}

fn scripted(size: usize, routes: &[(usize, usize)], faces_in_order: &[usize]) -> Sim<MockDie> {
    let mut queued_results = faces_in_order.to_vec();
    queued_results.reverse();
    Sim::new(board(size, routes), Box::new(MockDie { queued_results }))
}

#[test]
fn mock_die_gives_last_face_first() {
    let mut die = MockDie { queued_results: vec![1, 2, 3] };
    assert_eq!(die.roll(), 3);
    assert_eq!(die.roll(), 2);
    assert_eq!(die.roll(), 1);
    assert!(die.queued_results.is_empty());
}

#[test]
fn thread_die_gives_faces_of_the_die() {
    let mut die = rand::thread_rng();
    let mut seen = [false; DIE_SIZE + 1];
    for _ in 0..2000 {
        let face = die.roll();
        assert!(1 <= face && face <= DIE_SIZE);
        seen[face] = true;
    }
    // Each face of six turns up within two thousand rolls.
    assert!(seen[1..].iter().all(|s| *s));
}

#[test]
fn new_game_starts_at_zero() {
    let sim = Sim::new(board(20, &[(5, 8)]), Box::new(Unrollable {}));
    assert_eq!(sim.position, 0);
    assert_eq!(sim.turn_count, 0);
    assert_eq!(sim.roll_count, 0);
    assert_eq!(sim.climb_count, 0);
    assert_eq!(sim.slide_count, 0);
    assert_eq!(sim.climb_distance, 0);
    assert_eq!(sim.slide_distance, 0);
    assert_eq!(sim.biggest_climb, 0);
    assert_eq!(sim.biggest_slide, 0);
    assert_eq!(sim.longest_turn, Vec::<usize>::new());
    assert_eq!(sim.lucky_rolls, 0);
    assert_eq!(sim.unlucky_rolls, 0);
    assert_eq!(sim.board.size, 20);
    assert!(!sim.has_won());
}

#[test]
fn game_on_board_without_squares_is_won() {
    let mut sim = Sim::new(board(0, &[]), Box::new(Unrollable {}));
    assert!(sim.has_won());
    assert!(sim.run());
    assert_eq!(sim.turn_count, 0);
    assert_eq!(sim.roll_count, 0);
}

#[test]
fn overroll_counts_and_moves_nothing() {
    let mut sim = Sim::new(board(20, &[(19, 3)]), Box::new(Unrollable {}));
    sim.position = 17;
    let res = sim.roll_resolve(4);
    assert_eq!(res, RollResult { die_value: 4, climb_distance: 0, slide_distance: 0 });
    assert_eq!(sim.position, 17);
    assert_eq!(sim.roll_count, 1);
    assert_eq!(sim.lucky_rolls, 0);
    assert_eq!(sim.unlucky_rolls, 0);
    assert_eq!(sim.climb_count, 0);
    assert_eq!(sim.slide_count, 0);
    // A die value too large for the machine's numbers is an overroll too.
    let res = sim.roll_resolve(usize::MAX);
    assert_eq!(res, RollResult { die_value: usize::MAX, climb_distance: 0, slide_distance: 0 });
    assert_eq!(sim.position, 17);
    assert_eq!(sim.roll_count, 2);
    // The exact roll wins and is lucky.
    let res = sim.roll_resolve(3);
    assert_eq!(res, RollResult { die_value: 3, climb_distance: 0, slide_distance: 0 });
    assert!(sim.has_won());
    assert_eq!(sim.lucky_rolls, 1);
}

#[test]
fn won_game_stays_won() {
    let mut sim = Sim::new(board(20, &[(5, 8)]), Box::new(Unrollable {}));
    sim.roll_resolve(20);
    assert!(sim.has_won());
    for die in [0, 1, 6, 9999] {
        sim.roll_resolve(die);
        assert!(sim.has_won());
        assert_eq!(sim.position, 20);
    }
    assert_eq!(sim.roll_count, 5);
    // A turn of a won game rolls nothing.
    assert!(sim.turn());
    assert_eq!(sim.turn_count, 1);
    assert_eq!(sim.roll_count, 5);
    assert!(sim.run());
    assert_eq!(sim.turn_count, 1);
}

#[test]
fn chain_is_followed_to_its_end_in_one_roll() {
    let mut sim =
        Sim::new(board(100, &[(99, 60), (60, 30), (30, 2), (5, 1)]), Box::new(Unrollable {}));
    sim.position = 96;
    let res = sim.roll_resolve(3);
    assert_eq!(res, RollResult { die_value: 3, climb_distance: 0, slide_distance: 97 });
    assert_eq!(sim.position, 2);
    assert_eq!(sim.slide_count, 3);
    assert_eq!(sim.slide_distance, 97);
    assert_eq!(sim.climb_count, 0);
    assert_eq!(sim.unlucky_rolls, 1);
    assert_eq!(sim.lucky_rolls, 0);
}

#[test]
fn chain_of_ladders_and_snakes_counts_each() {
    // 3 up to 10, 10 down to 6, 6 up to 20: the winning square in the middle of a chain.
    let mut sim = Sim::new(board(20, &[(3, 10), (10, 6), (6, 20)]), Box::new(Unrollable {}));
    let res = sim.roll_resolve(3);
    assert_eq!(res, RollResult { die_value: 3, climb_distance: 21, slide_distance: 4 });
    assert_eq!(sim.position, 20);
    assert!(sim.has_won());
    assert_eq!(sim.climb_count, 2);
    assert_eq!(sim.slide_count, 1);
    assert_eq!(sim.climb_distance, 21);
    assert_eq!(sim.slide_distance, 4);
    assert_eq!(sim.lucky_rolls, 1);
    assert_eq!(sim.unlucky_rolls, 0);
}

#[test]
fn luck_goes_by_the_square_rolled_not_the_square_reached() {
    // The ladder from 3 ends next to the snake on 9; square 3 itself is only a ladder.
    let mut sim = Sim::new(board(20, &[(3, 8), (9, 1)]), Box::new(Unrollable {}));
    sim.roll_resolve(3);
    assert_eq!(sim.position, 8);
    assert_eq!(sim.lucky_rolls, 1);
    assert_eq!(sim.unlucky_rolls, 0);
    // Square 12 is neither.
    sim.roll_resolve(4);
    assert_eq!(sim.position, 12);
    assert_eq!(sim.lucky_rolls, 1);
    assert_eq!(sim.unlucky_rolls, 0);
}

#[test]
fn unlucky_goes_before_lucky() {
    let mut sim = Sim::new(board(20, &[(14, 2), (15, 3)]), Box::new(Unrollable {}));
    assert!(sim.is_lucky_roll(&14));
    assert!(sim.is_unlucky_roll(&14));
    assert!(sim.is_lucky_roll(&13));
    assert!(!sim.is_unlucky_roll(&13));
    assert!(!sim.is_lucky_roll(&2));
    sim.position = 10;
    sim.roll_resolve(4);
    assert_eq!(sim.position, 2);
    assert_eq!(sim.unlucky_rolls, 1);
    assert_eq!(sim.lucky_rolls, 0);
}

#[test]
fn try_roll_resolve_does_what_roll_resolve_does() {
    let mut a = Sim::new(board(20, &[(5, 8), (14, 2)]), Box::new(Unrollable {}));
    let mut b = Sim::new(board(20, &[(5, 8), (14, 2)]), Box::new(Unrollable {}));
    for die in [5, 6, 1, 9, 8] {
        assert_eq!(a.try_roll_resolve(die), Some(b.roll_resolve(die)));
        assert_eq!(a.position, b.position);
        assert_eq!(a.roll_count, b.roll_count);
        assert_eq!(a.climb_distance, b.climb_distance);
        assert_eq!(a.slide_distance, b.slide_distance);
        assert_eq!(a.lucky_rolls, b.lucky_rolls);
        assert_eq!(a.unlucky_rolls, b.unlucky_rolls);
    }
    assert_eq!(a.position, 20);
}

#[test]
fn roll_onto_a_circle_of_routes_is_not_resolved() {
    let mut sim = Sim::new(board(20, &[(3, 7), (7, 3), (5, 9)]), Box::new(Unrollable {}));
    assert_eq!(sim.try_roll_resolve(3), None);
    assert_eq!(sim.position, 0);
    assert_eq!(sim.roll_count, 0);
    assert_eq!(sim.climb_count, 0);
    assert_eq!(sim.slide_count, 0);
    assert_eq!(sim.lucky_rolls, 0);
    // Other squares of the same board play as usual.
    assert_eq!(
        sim.try_roll_resolve(5),
        Some(RollResult { die_value: 5, climb_distance: 4, slide_distance: 0 })
    );
    assert_eq!(sim.position, 9);
}

#[test]
fn roll_that_a_count_cannot_hold_is_not_resolved() {
    let mut sim = Sim::new(board(20, &[(5, 8), (14, 2)]), Box::new(Unrollable {}));
    sim.roll_count = usize::MAX;
    assert_eq!(sim.try_roll_resolve(1), None);
    assert_eq!(sim.position, 0);
    sim.roll_count = 0;
    sim.climb_distance = usize::MAX - 2;
    assert_eq!(sim.try_roll_resolve(5), None);
    assert_eq!(sim.position, 0);
    assert_eq!(sim.roll_count, 0);
    sim.climb_distance = usize::MAX - 3;
    assert_eq!(
        sim.try_roll_resolve(5),
        Some(RollResult { die_value: 5, climb_distance: 3, slide_distance: 0 })
    );
    assert_eq!(sim.climb_distance, usize::MAX);
    sim.unlucky_rolls = usize::MAX;
    assert_eq!(sim.try_roll_resolve(6), None);
    assert_eq!(sim.position, 8);
    sim.unlucky_rolls = 0;
    sim.slide_count = usize::MAX;
    assert_eq!(sim.try_roll_resolve(6), None);
    sim.slide_count = 0;
    sim.slide_distance = usize::MAX - 11;
    assert_eq!(sim.try_roll_resolve(6), None);
    sim.slide_distance = usize::MAX - 12;
    assert_eq!(
        sim.try_roll_resolve(6),
        Some(RollResult { die_value: 6, climb_distance: 0, slide_distance: 12 })
    );
    assert_eq!(sim.position, 2);
}

#[test]
fn roll_draws_one_face_and_resolves_it() {
    let mut sim = scripted(20, &[(5, 8)], &[5, 2]);
    let res = sim.roll();
    assert_eq!(res, RollResult { die_value: 5, climb_distance: 3, slide_distance: 0 });
    assert_eq!(sim.position, 8);
    assert_eq!(sim.rng.queued_results, vec![2]);
    assert_eq!(sim.turn_count, 0);
}

#[test]
fn turn_ends_after_a_face_below_the_highest() {
    let mut sim = scripted(30, &[], &[4, 5]);
    assert!(sim.turn());
    assert_eq!(sim.position, 4);
    assert_eq!(sim.roll_count, 1);
    assert_eq!(sim.turn_count, 1);
    assert_eq!(sim.longest_turn, vec![4]);
    assert_eq!(sim.rng.queued_results, vec![5]);
}

#[test]
fn turn_rolls_again_after_the_highest_face() {
    let mut sim = scripted(30, &[], &[6, 6, 3, 5]);
    assert!(sim.turn());
    assert_eq!(sim.position, 15);
    assert_eq!(sim.roll_count, 3);
    assert_eq!(sim.turn_count, 1);
    assert_eq!(sim.longest_turn, vec![6, 6, 3]);
    assert_eq!(sim.rng.queued_results, vec![5]);
}

#[test]
fn turn_does_not_roll_again_once_the_game_is_won() {
    let mut sim = scripted(12, &[], &[6, 6, 6]);
    assert!(sim.turn());
    assert!(sim.has_won());
    assert_eq!(sim.roll_count, 2);
    assert_eq!(sim.longest_turn, vec![6, 6]);
    assert_eq!(sim.rng.queued_results, vec![6]);
}

#[test]
fn turn_rolls_again_after_an_overroll_with_the_highest_face() {
    let mut sim = scripted(10, &[], &[6, 6, 2]);
    assert!(sim.turn());
    assert_eq!(sim.position, 8);
    assert_eq!(sim.roll_count, 3);
    assert_eq!(sim.longest_turn, vec![6, 6, 2]);
}

#[test]
fn turn_keeps_the_most_climbed_and_slid() {
    // First turn: 6 (ladder 6 -> 16, +10), then 2 (snake 18 -> 4, -14).
    // Second turn: 1 (ladder 5 -> 9, +4).
    let mut sim = scripted(30, &[(6, 16), (18, 4), (5, 9)], &[6, 2, 1]);
    assert!(sim.turn());
    assert_eq!(sim.position, 4);
    assert_eq!(sim.biggest_climb, 10);
    assert_eq!(sim.biggest_slide, 14);
    assert_eq!(sim.longest_turn, vec![6, 2]);
    assert!(sim.turn());
    assert_eq!(sim.position, 9);
    assert_eq!(sim.climb_distance, 14);
    assert_eq!(sim.slide_distance, 14);
    assert_eq!(sim.biggest_climb, 10);
    assert_eq!(sim.biggest_slide, 14);
    assert_eq!(sim.longest_turn, vec![6, 2]);
    assert_eq!(sim.turn_count, 2);
    assert_eq!(sim.roll_count, 3);
}

#[test]
fn turn_is_cut_short_on_a_circle_of_routes() {
    let mut sim = scripted(20, &[(3, 7), (7, 3)], &[3, 4]);
    assert!(!sim.turn());
    assert_eq!(sim.position, 0);
    assert_eq!(sim.turn_count, 1);
    assert_eq!(sim.roll_count, 0);
    assert_eq!(sim.longest_turn, vec![3]);
    assert_eq!(sim.rng.queued_results, vec![4]);
}

#[test]
fn turn_that_cannot_be_counted_changes_nothing() {
    let mut sim = scripted(20, &[], &[3]);
    sim.turn_count = usize::MAX;
    assert!(!sim.turn());
    assert_eq!(sim.position, 0);
    assert_eq!(sim.turn_count, usize::MAX);
    assert_eq!(sim.roll_count, 0);
    assert_eq!(sim.rng.queued_results, vec![3]);
    assert!(!sim.run());
    assert_eq!(sim.rng.queued_results, vec![3]);
}

#[test]
fn run_plays_until_won() {
    let mut sim = scripted(10, &[(3, 9), (8, 2)], &[6, 2, 5, 1, 1]);
    // 6, 2: lands on 8, slides to 2. 5: on 7. 1: lands on 8 again, slides to 2.
    // 1: lands on 3, climbs to 9. The script is used up and the game not won.
    let mut more = scripted(10, &[(3, 9), (8, 2)], &[6, 2, 5, 1, 1, 1]);
    assert!(more.run());
    assert_eq!(more.position, 10);
    assert_eq!(more.turn_count, 5);
    assert_eq!(more.roll_count, 6);
    assert_eq!(more.slide_count, 2);
    assert_eq!(more.slide_distance, 12);
    assert_eq!(more.climb_count, 1);
    assert_eq!(more.climb_distance, 6);
    assert_eq!(more.biggest_slide, 6);
    assert_eq!(more.biggest_climb, 6);
    assert_eq!(more.longest_turn, vec![6, 2]);
    assert_eq!(more.unlucky_rolls, 2);
    // 6 and 7 are next to the snake on 8; 3 is a ladder; 10 wins.
    assert_eq!(more.lucky_rolls, 4);
    // The first game, taken turn by turn, stands one roll before the end.
    for _ in 0..4 {
        assert!(sim.turn());
    }
    assert_eq!(sim.position, 9);
    assert!(!sim.has_won());
    assert!(sim.rng.queued_results.is_empty());
}

#[test]
fn run_ends_where_a_turn_is_cut_short() {
    let mut sim = scripted(20, &[(3, 7), (7, 3)], &[2, 1, 4]);
    assert!(!sim.run());
    assert_eq!(sim.position, 2);
    assert_eq!(sim.turn_count, 2);
    assert_eq!(sim.roll_count, 1);
    assert_eq!(sim.rng.queued_results, vec![4]);
}

#[test]
fn turns_are_ordered_face_by_face() {
    assert!(turn_is_greater(&vec![6, 6, 3], &vec![6, 6, 2]));
    assert!(turn_is_greater(&vec![6, 6, 2], &vec![6, 5]));
    assert!(turn_is_greater(&vec![6, 6, 3], &vec![6, 5]));
    assert!(!turn_is_greater(&vec![6, 6, 2], &vec![6, 6, 3]));
    assert!(!turn_is_greater(&vec![6, 5], &vec![6, 6, 2]));
    assert!(!turn_is_greater(&vec![6, 5], &vec![6, 5]));
    assert!(turn_is_greater(&vec![6, 5], &vec![6]));
    assert!(!turn_is_greater(&vec![6], &vec![6, 5]));
    assert!(turn_is_greater(&vec![1], &vec![]));
    assert!(!turn_is_greater(&vec![], &vec![]));
    assert!(!turn_is_greater(&vec![], &vec![1]));
    assert!(turn_is_greater(&vec![5], &vec![4, 6, 6]));
    // The order is that of the vectors themselves.
    let turns = [vec![], vec![1], vec![4, 6, 6], vec![5], vec![6], vec![6, 5], vec![6, 6, 2]];
    for a in &turns {
        for b in &turns {
            assert_eq!(turn_is_greater(a, b), a > b);
        }
    }
}

#[test]
fn mean_is_sum_over_count() {
    let (lo, mean, hi) = min_avg_max(vec![8, 0, 3]).unwrap();
    assert_eq!((lo, hi), (0, 8));
    assert_eq!(mean, Mean { total: 11, count: 3 });
    let (lo, mean, hi) = min_avg_max(vec![usize::MAX, usize::MAX, 7]).unwrap();
    assert_eq!((lo, hi), (7, usize::MAX));
    assert_eq!(mean, Mean { total: 2 * (usize::MAX as u128) + 7, count: 3 });
    assert_eq!(min_avg_max(vec![]), None);
}

#[test]
fn batch_of_played_games_is_reduced() {
    let mut a = scripted(10, &[(3, 9), (8, 2)], &[6, 2, 5, 1, 1, 1]);
    let mut b = scripted(10, &[(3, 9), (8, 2)], &[6, 6, 4]);
    let mut c = scripted(10, &[(3, 9), (8, 2)], &[3, 1]);
    assert!(a.run() && b.run() && c.run());
    // b: 6, overroll 6, 4 to the winning square: one turn, three rolls, two lucky.
    assert_eq!((b.roll_count, b.turn_count, b.lucky_rolls), (3, 1, 2));
    // c: 3 climbs to 9, 1 wins.
    assert_eq!((c.roll_count, c.climb_distance, c.lucky_rolls), (2, 6, 2));
    let sims = vec![a, b, c];
    assert_eq!(Figure::Rolls.read(&sims[0]), 6);
    assert_eq!(Figure::Slide.read(&sims[0]), 12);
    assert_eq!(Figure::TurnSlide.read(&sims[0]), 6);
    let res = MultiSimResult::from_sims(&sims);
    assert_eq!(
        res,
        MultiSimResult {
            min_rolls: 2,
            avg_rolls: Mean { total: 11, count: 3 },
            max_rolls: 6,
            min_climb: 0,
            avg_climb: Mean { total: 12, count: 3 },
            max_climb: 6,
            min_slide: 0,
            avg_slide: Mean { total: 12, count: 3 },
            max_slide: 12,
            biggest_turn_climb: 6,
            biggest_turn_slide: 6,
            longest_turn: vec![6, 6, 4],
            min_lucky_rolls: 2,
            avg_lucky_rolls: Mean { total: 8, count: 3 },
            max_lucky_rolls: 4,
            min_unlucky_rolls: 0,
            avg_unlucky_rolls: Mean { total: 2, count: 3 },
            max_unlucky_rolls: 2,
        }
    );
}

#[test]
fn batch_with_dice_of_chance_plays_every_game_to_the_end() {
    let canon = [
        (27, 5),
        (40, 3),
        (43, 18),
        (54, 31),
        (66, 45),
        (76, 58),
        (89, 53),
        (99, 41),
        (4, 25),
        (13, 46),
        (33, 49),
        (42, 63),
        (50, 69),
        (62, 81),
        (74, 92),
    ];
    let res = run_sim_batch(board(100, &canon), 25);
    assert_eq!(res.avg_rolls.count, 25);
    assert_eq!(res.avg_climb.count, 25);
    assert_eq!(res.avg_unlucky_rolls.count, 25);
    // No game reaches square 100 in fewer than 7 rolls.
    assert!(res.min_rolls >= 7);
    assert!(res.min_rolls <= res.max_rolls);
    assert!(res.avg_rolls.total >= 25 * res.min_rolls as u128);
    assert!(res.avg_rolls.total <= 25 * res.max_rolls as u128);
    assert!(res.min_climb <= res.max_climb);
    assert!(res.min_slide <= res.max_slide);
    // The last roll of each game lands on the winning square, which is lucky.
    assert!(res.min_lucky_rolls >= 1);
    assert!(!res.longest_turn.is_empty());
    assert!(res.longest_turn.iter().all(|f| 1 <= *f && *f <= DIE_SIZE));
    assert!(res.biggest_turn_climb <= res.max_climb);
    assert!(res.biggest_turn_slide <= res.max_slide);
}

#[test]
fn batch_of_one_game_on_a_blank_board() {
    let res = run_sim_batch(board(6, &[]), 1);
    assert_eq!(res.min_rolls, res.max_rolls);
    assert_eq!(res.avg_rolls, Mean { total: res.min_rolls as u128, count: 1 });
    assert_eq!((res.min_climb, res.max_climb, res.min_slide, res.max_slide), (0, 0, 0, 0));
    assert_eq!((res.min_unlucky_rolls, res.max_unlucky_rolls), (0, 0));
    assert_eq!((res.min_lucky_rolls, res.max_lucky_rolls), (1, 1));
}

#[test]
fn figures_hold_together_after_a_run() {
    let mut sim = Sim::new(
        board(100, &[(27, 5), (40, 3), (43, 18), (4, 25), (13, 46), (33, 49), (99, 41)]),
        Box::new(rand::thread_rng()),
    );
    assert!(sim.run());
    assert!(sim.has_won());
    assert!(sim.roll_count >= 1);
    assert!(sim.turn_count >= 1);
    assert!(sim.turn_count <= sim.roll_count);
    assert!(sim.lucky_rolls + sim.unlucky_rolls <= sim.roll_count);
    assert!(sim.climb_count <= sim.climb_distance);
    assert!(sim.slide_count <= sim.slide_distance);
    assert!(sim.biggest_climb <= sim.climb_distance);
    assert!(sim.biggest_slide <= sim.slide_distance);
    assert!(sim.longest_turn.iter().all(|f| 1 <= *f && *f <= DIE_SIZE));
    // The token ends on square 100: what it gained on routes is at most that and what it lost.
    assert!(100 + sim.slide_distance >= sim.climb_distance);
}

#[test]
fn batch_reduces_a_game_that_was_cut_short_as_it_stands() {
    // Every first roll but a 3 passes the circle; a game that rolls onto it ends there.
    let res = run_sim_batch(board(8, &[(3, 5), (5, 3)]), 40);
    assert_eq!(res.avg_rolls.count, 40);
    assert!(res.min_rolls <= res.max_rolls);
    assert_eq!((res.min_climb, res.max_climb, res.min_slide, res.max_slide), (0, 0, 0, 0));
}
