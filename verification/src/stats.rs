//! Figures of many games, reduced to their least, their mean and their greatest.

use crate::boards::{Board, Geometry};
use crate::dice::{thread_die, Roll};
use crate::play::{
    lemma_run_keeps_figures, lemma_turn_exceeds_goes_on, lemma_turn_exceeds_is_strict,
    lemma_won_game_has_rolls, turn_exceeds, turn_is_greater, Stats,
};
use crate::sim::Sim;
use rand::rngs::ThreadRng;
use vstd::prelude::*;

verus! {

/// A mean kept exact: the sum of the values and how many they are.
#[derive(Debug, Clone, Copy, PartialEq, Eq, Structural)]
pub struct Mean {
    /// The sum of the values.
    pub total: u128,
    /// How many values there are; never 0.
    pub count: usize,
}

/// The sum of the values of `values`.
pub open spec fn sum_of(values: Seq<nat>) -> nat
    decreases values.len(),
{
    if values.len() == 0 {
        0
    } else {
        sum_of(values.drop_last()) + values.last()
    }
}

/// `lo` is the least value of `values`.
pub open spec fn is_least(lo: nat, values: Seq<nat>) -> bool {
    &&& values.contains(lo)
    &&& forall|i: int| 0 <= i < values.len() ==> lo <= #[trigger] values[i]
}

/// `hi` is the greatest value of `values`.
pub open spec fn is_greatest(hi: nat, values: Seq<nat>) -> bool {
    &&& values.contains(hi)
    &&& forall|i: int| 0 <= i < values.len() ==> #[trigger] values[i] <= hi
}

/// `lo`, `mean` and `hi` are the least value of `values`, their mean and
/// their greatest value.
pub open spec fn is_spread(lo: usize, mean: Mean, hi: usize, values: Seq<nat>) -> bool {
    &&& is_least(lo as nat, values)
    &&& mean.total == sum_of(values)
    &&& mean.count == values.len()
    &&& is_greatest(hi as nat, values)
}

/// The values of `sequence` as plain numbers.
pub open spec fn numbers(sequence: Seq<usize>) -> Seq<nat> {
    sequence.map_values(|v: usize| v as nat)
}

/// The least value of `sequence`, its mean and its greatest value; `None`
/// for an empty sequence, which has none of them.
pub fn min_avg_max(sequence: Vec<usize>) -> (r: Option<(usize, Mean, usize)>)
    ensures
        r is None <==> sequence.len() == 0,
        r matches Some((lo, mean, hi)) ==> is_spread(lo, mean, hi, numbers(sequence@)),
{
    if sequence.len() == 0 {
        return None;
    }
    let ghost values = numbers(sequence@);
    let mut lo = sequence[0];
    let mut hi = sequence[0];
    let mut total: u128 = sequence[0] as u128;
    let mut i: usize = 1;
    let ghost mut lo_at: int = 0;
    let ghost mut hi_at: int = 0;
    assert(values.take(1).drop_last() =~= Seq::<nat>::empty());
    assert(sum_of(values.take(1)) == values[0]) by {
        assert(sum_of(values.take(1).drop_last()) == 0);
    }
    while i < sequence.len()
        invariant
            1 <= i <= sequence.len(),
            values == numbers(sequence@),
            0 <= lo_at < i && values[lo_at] == lo,
            0 <= hi_at < i && values[hi_at] == hi,
            forall|j: int| 0 <= j < i ==> lo <= #[trigger] values[j] <= hi,
            total == sum_of(values.take(i as int)),
            total <= i * usize::MAX,
        decreases sequence.len() - i,
    {
        let v = sequence[i];
        assert(values.take(i + 1).drop_last() =~= values.take(i as int));
        assert(i * usize::MAX + usize::MAX <= u128::MAX) by (nonlinear_arith)
            requires
                i <= usize::MAX,
                usize::MAX <= u64::MAX,
        ;
        assert((i + 1) * usize::MAX == i * usize::MAX + usize::MAX) by (nonlinear_arith);
        total = total + v as u128;
        if v < lo {
            lo = v;
            proof {
                lo_at = i as int;
            }
        }
        if v > hi {
            hi = v;
            proof {
                hi_at = i as int;
            }
        }
        i += 1;
    }
    assert(values.take(i as int) =~= values);
    Some((lo, Mean { total, count: sequence.len() }, hi))
}

/// The figures of a game that a batch reduces.
#[derive(Debug, Clone, Copy, PartialEq, Eq, Structural)]
pub enum Figure {
    /// Rolls resolved.
    Rolls,
    /// Squares gained on routes.
    Climb,
    /// Squares lost on routes.
    Slide,
    /// The most squares gained on routes within one turn.
    TurnClimb,
    /// The most squares lost on routes within one turn.
    TurnSlide,
    /// Lucky rolls.
    Lucky,
    /// Unlucky rolls.
    Unlucky,
}

impl Figure {
    /// This figure of the game `st`.
    pub open spec fn of(self, st: Stats) -> nat {
        match self {
            Figure::Rolls => st.roll_count,
            Figure::Climb => st.climb_distance,
            Figure::Slide => st.slide_distance,
            Figure::TurnClimb => st.biggest_climb,
            Figure::TurnSlide => st.biggest_slide,
            Figure::Lucky => st.lucky_rolls,
            Figure::Unlucky => st.unlucky_rolls,
        }
    }

    /// This figure of the game `sim`.
    pub fn read<R: Roll + ?Sized>(self, sim: &Sim<R>) -> (v: usize)
        ensures
            v == self.of(sim@),
    {
        match self {
            Figure::Rolls => sim.roll_count,
            Figure::Climb => sim.climb_distance,
            Figure::Slide => sim.slide_distance,
            Figure::TurnClimb => sim.biggest_climb,
            Figure::TurnSlide => sim.biggest_slide,
            Figure::Lucky => sim.lucky_rolls,
            Figure::Unlucky => sim.unlucky_rolls,
        }
    }
}

/// The figures of the games of `sims`, game by game.
pub open spec fn games_of<R: Roll + ?Sized>(sims: Seq<Sim<R>>) -> Seq<Stats> {
    sims.map_values(|s: Sim<R>| s@)
}

/// One figure of every game of `games`.
pub open spec fn column(games: Seq<Stats>, which: Figure) -> Seq<nat> {
    games.map_values(|g: Stats| which.of(g))
}

/// `turn` is the greatest of the longest turns of `games`.
pub open spec fn is_longest(turn: Seq<usize>, games: Seq<Stats>) -> bool {
    &&& exists|i: int| 0 <= i < games.len() && (#[trigger] games[i]).longest_turn == turn
    &&& forall|i: int|
        0 <= i < games.len() ==> !turn_exceeds((#[trigger] games[i]).longest_turn, turn)
}

/// The games of a batch, reduced.
#[derive(Debug, PartialEq)]
pub struct MultiSimResult {
    /// The fewest rolls of a game.
    pub min_rolls: usize,
    /// The mean number of rolls.
    pub avg_rolls: Mean,
    /// The most rolls of a game.
    pub max_rolls: usize,
    /// The fewest squares gained on routes in a game.
    pub min_climb: usize,
    /// The mean of the squares gained on routes.
    pub avg_climb: Mean,
    /// The most squares gained on routes in a game.
    pub max_climb: usize,
    /// The fewest squares lost on routes in a game.
    pub min_slide: usize,
    /// The mean of the squares lost on routes.
    pub avg_slide: Mean,
    /// The most squares lost on routes in a game.
    pub max_slide: usize,
    /// The most squares gained on routes within one turn, rolls after a
    /// highest face and chains of routes included.
    pub biggest_turn_climb: usize,
    /// The most squares lost on routes within one turn, rolls after a highest
    /// face and chains of routes included.
    pub biggest_turn_slide: usize,
    /// The greatest sequence of faces rolled within one turn.
    pub longest_turn: Vec<usize>,
    /// The fewest lucky rolls of a game.
    pub min_lucky_rolls: usize,
    /// The mean number of lucky rolls.
    pub avg_lucky_rolls: Mean,
    /// The most lucky rolls of a game.
    pub max_lucky_rolls: usize,
    /// The fewest unlucky rolls of a game.
    pub min_unlucky_rolls: usize,
    /// The mean number of unlucky rolls.
    pub avg_unlucky_rolls: Mean,
    /// The most unlucky rolls of a game.
    pub max_unlucky_rolls: usize,
}

impl MultiSimResult {
    /// `self` reduces `games`: of rolls, squares climbed, squares slid, lucky
    /// and unlucky rolls it holds the least, the mean and the greatest; of the
    /// most climbed and the most slid within one turn the greatest; and the
    /// greatest of the longest turns.
    pub open spec fn sums_up(&self, games: Seq<Stats>) -> bool {
        &&& is_spread(self.min_rolls, self.avg_rolls, self.max_rolls, column(games, Figure::Rolls))
        &&& is_spread(self.min_climb, self.avg_climb, self.max_climb, column(games, Figure::Climb))
        &&& is_spread(self.min_slide, self.avg_slide, self.max_slide, column(games, Figure::Slide))
        &&& is_greatest(self.biggest_turn_climb as nat, column(games, Figure::TurnClimb))
        &&& is_greatest(self.biggest_turn_slide as nat, column(games, Figure::TurnSlide))
        &&& is_longest(self.longest_turn@, games)
        &&& is_spread(
            self.min_lucky_rolls,
            self.avg_lucky_rolls,
            self.max_lucky_rolls,
            column(games, Figure::Lucky),
        )
        &&& is_spread(
            self.min_unlucky_rolls,
            self.avg_unlucky_rolls,
            self.max_unlucky_rolls,
            column(games, Figure::Unlucky),
        )
    }

    /// Reduces the games of `sims`, of which there is at least one.
    pub fn from_sims<R: Roll + ?Sized>(sims: &[Sim<R>]) -> (res: MultiSimResult)
        requires
            sims.len() > 0,
        ensures
            res.sums_up(games_of(sims@)),
    {
        let (min_rolls, avg_rolls, max_rolls) = min_avg_max(figures(sims, Figure::Rolls)).unwrap();
        let (min_climb, avg_climb, max_climb) = min_avg_max(figures(sims, Figure::Climb)).unwrap();
        let (min_slide, avg_slide, max_slide) = min_avg_max(figures(sims, Figure::Slide)).unwrap();
        let (min_lucky_rolls, avg_lucky_rolls, max_lucky_rolls) = min_avg_max(
            figures(sims, Figure::Lucky),
        ).unwrap();
        let (min_unlucky_rolls, avg_unlucky_rolls, max_unlucky_rolls) = min_avg_max(
            figures(sims, Figure::Unlucky),
        ).unwrap();
        let turn_climbs = min_avg_max(figures(sims, Figure::TurnClimb)).unwrap();
        let turn_slides = min_avg_max(figures(sims, Figure::TurnSlide)).unwrap();
        MultiSimResult {
            min_rolls,
            avg_rolls,
            max_rolls,
            min_climb,
            avg_climb,
            max_climb,
            min_slide,
            avg_slide,
            max_slide,
            biggest_turn_climb: turn_climbs.2,
            biggest_turn_slide: turn_slides.2,
            longest_turn: longest_turn_of(sims),
            min_lucky_rolls,
            avg_lucky_rolls,
            max_lucky_rolls,
            min_unlucky_rolls,
            avg_unlucky_rolls,
            max_unlucky_rolls,
        }
    }
}

/// Plays `count` games on `board`, at least one, each with a die of chance
/// of its own and from the start, and reduces them. Each game is played until
/// it is won, or until one of its turns is cut short: by a roll onto routes
/// that lead round in a circle, or by a count at the limit of its type. Such
/// a game ends there and is reduced as it stands.
pub fn run_sim_batch(board: Board, count: usize) -> (res: MultiSimResult)
    requires
        board@.wf(),
        count > 0,
    ensures
        exists|games: Seq<Stats>|
            {
                &&& #[trigger] res.sums_up(games)
                &&& games.len() == count
                &&& forall|i: int| 0 <= i < count ==> board@.is_outcome(#[trigger] games[i])
            },
{
    let mut sims: Vec<Sim<ThreadRng>> = Vec::new();
    let mut i: usize = 0;
    while i < count
        invariant
            i <= count,
            sims.len() == i,
            board@.wf(),
            forall|j: int| 0 <= j < i ==> board@.is_outcome(#[trigger] sims[j]@),
        decreases count - i,
    {
        let mut sim = Sim::new(board.clone(), Box::new(thread_die()));
        let ghost fresh = sim;
        sim.run();
        proof {
            let turns = choose|turns: Seq<Seq<usize>>| #[trigger] sim.ran(&fresh, turns);
            assert(board@.is_game(Stats::start(), turns));
        }
        sims.push(sim);
        i += 1;
    }
    let res = MultiSimResult::from_sims(sims.as_slice());
    proof {
        let games = games_of(sims@);
        assert(res.sums_up(games));
        assert forall|j: int| 0 <= j < count implies board@.is_outcome(#[trigger] games[j]) by {
            assert(games[j] == sims[j]@);
        }
    }
    res
}

/// The figures of a run from the start on a valid board hold together. If
/// the game was won, no more turns are counted than rolls, and there is at
/// least one roll unless the board has no square beyond the start.
pub proof fn lemma_outcome_holds_together(board: Geometry, st: Stats)
    requires
        board.wf(),
        board.is_outcome(st),
    ensures
        board.figures_agree(st),
        board.won(st) ==> st.turn_count <= st.roll_count,
        board.won(st) && board.size > 0 ==> st.roll_count >= 1,
{
    let turns = choose|turns: Seq<Seq<usize>>|
        {
            &&& #[trigger] board.is_game(Stats::start(), turns)
            &&& st == board.after_turns(Stats::start(), turns)
        };
    lemma_run_keeps_figures(board, Stats::start(), turns);
    if board.won(st) {
        lemma_won_game_has_rolls(board, turns);
    }
}

/// Among games that were all won, on a valid board that has a square
/// beyond the start, the fewest rolls of a game are at least one.
pub proof fn lemma_won_games_have_rolls(board: Geometry, lo: nat, games: Seq<Stats>)
    requires
        board.wf(),
        board.size > 0,
        is_least(lo, column(games, Figure::Rolls)),
        forall|i: int|
            0 <= i < games.len() ==> board.is_outcome(#[trigger] games[i]) && board.won(games[i]),
    ensures
        lo >= 1,
{
    let rolls = column(games, Figure::Rolls);
    let i = choose|i: int| 0 <= i < rolls.len() && rolls[i] == lo;
    lemma_outcome_holds_together(board, games[i]);
}

/// In a batch of games that were all won, on a valid board that has a
/// square beyond the start, every game has a roll: so has the one with the
/// fewest.
pub proof fn lemma_won_batch_has_rolls(board: Geometry, res: MultiSimResult, games: Seq<Stats>)
    requires
        board.wf(),
        board.size > 0,
        res.sums_up(games),
        forall|i: int|
            0 <= i < games.len() ==> board.is_outcome(#[trigger] games[i]) && board.won(games[i]),
    ensures
        res.min_rolls >= 1,
{
    lemma_won_games_have_rolls(board, res.min_rolls as nat, games);
}

/// One figure of every game of `sims`, game by game.
pub fn figures<R: Roll + ?Sized>(sims: &[Sim<R>], which: Figure) -> (v: Vec<usize>)
    ensures
        v.len() == sims.len(),
        numbers(v@) == column(games_of(sims@), which),
{
    let mut v: Vec<usize> = Vec::new();
    let mut i: usize = 0;
    while i < sims.len()
        invariant
            i <= sims.len(),
            v.len() == i,
            forall|j: int| 0 <= j < i ==> v[j] == which.of(#[trigger] sims[j]@),
        decreases sims.len() - i,
    {
        v.push(which.read(&sims[i]));
        i += 1;
    }
    assert(numbers(v@) =~= column(games_of(sims@), which));
    v
}

/// The greatest of the longest turns of the games of `sims`, of which there
/// is at least one.
pub fn longest_turn_of<R: Roll + ?Sized>(sims: &[Sim<R>]) -> (turn: Vec<usize>)
    requires
        sims.len() > 0,
    ensures
        is_longest(turn@, games_of(sims@)),
{
    let ghost games = games_of(sims@);
    let mut best: usize = 0;
    let mut i: usize = 1;
    proof {
        lemma_turn_exceeds_is_strict(games[0].longest_turn, games[0].longest_turn);
    }
    while i < sims.len()
        invariant
            1 <= i <= sims.len(),
            best < i,
            games == games_of(sims@),
            forall|j: int|
                0 <= j < i ==> !turn_exceeds(
                    (#[trigger] games[j]).longest_turn,
                    games[best as int].longest_turn,
                ),
        decreases sims.len() - i,
    {
        if turn_is_greater(&sims[i].longest_turn, &sims[best].longest_turn) {
            proof {
                let new = games[i as int].longest_turn;
                let old = games[best as int].longest_turn;
                lemma_turn_exceeds_is_strict(new, old);
                assert forall|j: int| 0 <= j < i + 1 implies !turn_exceeds(
                    (#[trigger] games[j]).longest_turn,
                    new,
                ) by {
                    if j < i && turn_exceeds(games[j].longest_turn, new) {
                        lemma_turn_exceeds_goes_on(games[j].longest_turn, new, old);
                    }
                    if j == i {
                        lemma_turn_exceeds_is_strict(new, new);
                    }
                }
            }
            best = i;
        }
        i += 1;
    }
    let turn = sims[best].longest_turn.clone();
    assert(turn@ =~= games[best as int].longest_turn);
    turn
}

} // verus!
