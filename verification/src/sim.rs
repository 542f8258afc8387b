//! One game: a token on a board, a die source, and the figures kept of the play.

use crate::boards::{lemma_chain_adds_up, Board};
use crate::dice::{drawn, lemma_drawn_in_a_row, Roll, DIE_SIZE};
use crate::luck::compute_luck;
use crate::play::{
    all_rolls, lemma_game_takes_turn, lemma_script_serves_on, lemma_turn_has_next_face,
    lemma_run_keeps_figures, lemma_turn_in_full, lemma_won_run_is_empty,
    lemma_won_turn_only_counts, turn_is_greater, Stats,
};
use std::collections::HashSet;
use vstd::prelude::*;

verus! {

/// One game in play, with faces from a die source of kind `R`.
pub struct Sim<R: Roll + ?Sized> {
    /// The board that the game is played on.
    pub board: Board,
    /// The square of the token.
    pub position: usize,
    /// Where the faces come from.
    pub rng: Box<R>,
    /// The lucky squares of the board.
    pub lucky_spaces: HashSet<usize>,
    /// The unlucky squares of the board.
    pub unlucky_spaces: HashSet<usize>,
    /// Turns begun.
    pub turn_count: usize,
    /// Rolls resolved.
    pub roll_count: usize,
    /// Routes followed upwards.
    pub climb_count: usize,
    /// Routes followed downwards.
    pub slide_count: usize,
    /// Squares gained on routes.
    pub climb_distance: usize,
    /// Squares lost on routes.
    pub slide_distance: usize,
    /// The most squares gained on routes within one turn.
    pub biggest_climb: usize,
    /// The most squares lost on routes within one turn.
    pub biggest_slide: usize,
    /// The greatest sequence of faces rolled within one turn.
    pub longest_turn: Vec<usize>,
    /// Rolls that landed on a lucky square and on no unlucky one.
    pub lucky_rolls: usize,
    /// Rolls that landed on an unlucky square.
    pub unlucky_rolls: usize,
}

/// What one roll did.
#[derive(Debug, Clone, Copy, PartialEq, Eq, Structural)]
pub struct RollResult {
    /// The face rolled.
    pub die_value: usize,
    /// Squares gained on routes by this roll.
    pub climb_distance: usize,
    /// Squares lost on routes by this roll.
    pub slide_distance: usize,
}

impl<R: Roll + ?Sized> View for Sim<R> {
    type V = Stats;

    open spec fn view(&self) -> Stats {
        Stats {
            position: self.position as nat,
            turn_count: self.turn_count as nat,
            roll_count: self.roll_count as nat,
            climb_count: self.climb_count as nat,
            slide_count: self.slide_count as nat,
            climb_distance: self.climb_distance as nat,
            slide_distance: self.slide_distance as nat,
            biggest_climb: self.biggest_climb as nat,
            biggest_slide: self.biggest_slide as nat,
            longest_turn: self.longest_turn@,
            lucky_rolls: self.lucky_rolls as nat,
            unlucky_rolls: self.unlucky_rolls as nat,
        }
    }
}

impl<R: Roll + ?Sized> Sim<R> {
    /// A game as its operations need it: the board is valid, the token is on
    /// it, and the two sets hold the board's lucky and unlucky squares.
    pub open spec fn wf(&self) -> bool {
        &&& self.board@.wf()
        &&& self.position <= self.board.size
        &&& self.lucky_spaces@ == self.board@.lucky_squares()
        &&& self.unlucky_spaces@ == self.board@.unlucky_squares()
    }

    /// `self` has the board of `before` and its sets of squares.
    pub open spec fn same_board(&self, before: &Sim<R>) -> bool {
        &&& self.board == before.board
        &&& self.lucky_spaces == before.lucky_spaces
        &&& self.unlucky_spaces == before.unlucky_spaces
    }

    /// `self` is `before` but for the figures of play: same board, same sets
    /// of squares, same die source.
    pub open spec fn same_game(&self, before: &Sim<R>) -> bool {
        self.same_board(before) && self.rng == before.rng
    }

    /// The die source can serve the next roll, and whatever face it gives can
    /// be resolved.
    pub open spec fn can_roll(&self) -> bool {
        match self.rng.script() {
            Some(s) => s.len() > 0 && self.board@.roll_fits(self@, s[0]),
            None => forall|face: usize|
                1 <= face <= DIE_SIZE ==> #[trigger] self.board@.roll_fits(self@, face),
        }
    }

    /// A new game on `board` with faces from `rng`: the token on square 0,
    /// every count at 0, and the lucky and unlucky squares worked out.
    pub fn new(board: Board, rng: Box<R>) -> (s: Sim<R>)
        ensures
            s.board == board,
            s.rng == rng,
            s@ == Stats::start(),
            s.lucky_spaces@ == board@.lucky_squares(),
            s.unlucky_spaces@ == board@.unlucky_squares(),
            board@.wf() ==> s.wf(),
    {
        let (lucky_spaces, unlucky_spaces) = compute_luck(&board);
        Sim {
            board,
            position: 0,
            rng,
            lucky_spaces,
            unlucky_spaces,
            turn_count: 0,
            roll_count: 0,
            climb_count: 0,
            slide_count: 0,
            climb_distance: 0,
            slide_distance: 0,
            biggest_climb: 0,
            biggest_slide: 0,
            longest_turn: Vec::new(),
            lucky_rolls: 0,
            unlucky_rolls: 0,
        }
    }

    /// Whether the token stands on the winning square.
    pub fn has_won(&self) -> (won: bool)
        ensures
            won == (self.position == self.board.size),
            won == self.board@.won(self@),
    {
        self.position == self.board.size
    }

    /// Whether a roll that lands on `rolled_position` lands on a lucky square.
    pub fn is_lucky_roll(&self, rolled_position: &usize) -> (r: bool)
        ensures
            r == self.lucky_spaces@.contains(*rolled_position),
            self.wf() ==> r == self.board@.is_lucky(*rolled_position as int),
    {
        self.lucky_spaces.contains(rolled_position)
    }

    /// Whether a roll that lands on `rolled_position` lands on an unlucky square.
    pub fn is_unlucky_roll(&self, rolled_position: &usize) -> (r: bool)
        ensures
            r == self.unlucky_spaces@.contains(*rolled_position),
            self.wf() ==> r == self.board@.is_unlucky(*rolled_position as int),
    {
        self.unlucky_spaces.contains(rolled_position)
    }

    /// Resolves a roll of `die_value` if that can be done, and says what it
    /// did. Where it cannot, because the chain of routes never comes to rest
    /// or a count would outgrow its type, nothing changes and the answer is `None`.
    pub fn try_roll_resolve(&mut self, die_value: usize) -> (r: Option<RollResult>)
        requires
            old(self).wf(),
        ensures
            final(self).wf(),
            final(self).same_game(old(self)),
            r is Some <==> old(self).board@.roll_fits(old(self)@, die_value),
            final(self)@ == old(self).board@.after_roll(old(self)@, die_value),
            r matches Some(res) ==> {
                &&& res.die_value == die_value
                &&& res.climb_distance == final(self)@.climb_distance - old(self)@.climb_distance
                &&& res.slide_distance == final(self)@.slide_distance - old(self)@.slide_distance
            },
            r is None ==> *final(self) == *old(self),
            old(self).position == old(self).board.size
                ==> final(self).position == final(self).board.size,
            old(self).position + die_value > old(self).board.size ==> {
                &&& final(self)@ == (Stats {
                    roll_count: final(self)@.roll_count,
                    ..old(self)@
                })
                &&& r matches Some(res) ==> {
                    &&& final(self).roll_count == old(self).roll_count + 1
                    &&& res.climb_distance == 0
                    &&& res.slide_distance == 0
                }
            },
            r is Some && old(self).position + die_value <= old(self).board.size ==> {
                let target = (old(self).position + die_value) as usize;
                &&& final(self).position == old(self).board@.settled(target).rest
                &&& !final(self).board.routes@.contains_key(final(self).position)
            },
            old(self).position + die_value <= old(self).board.size
                && old(self).unlucky_spaces@.contains(
                (old(self).position + die_value) as usize,
            ) ==> {
                &&& final(self).lucky_rolls == old(self).lucky_rolls
                &&& r is Some ==> final(self).unlucky_rolls == old(self).unlucky_rolls + 1
            },
    {
        if self.roll_count == usize::MAX {
            return None;
        }
        let size = self.board.size;
        if die_value > size - self.position {
            // Past the winning square: the roll counts and nothing moves.
            self.roll_count += 1;
            return Some(RollResult { die_value, climb_distance: 0, slide_distance: 0 });
        }
        let rolled_position = self.position + die_value;
        let ghost whole = self.board@.settled(rolled_position);

        // Follow the routes, snake or ladder, as far as they lead.
        let mut slid_position = rolled_position;
        let mut hops_left = size;
        let mut climbs: usize = 0;
        let mut slides: usize = 0;
        let mut climbed: usize = 0;
        let mut slid: usize = 0;
        loop
            invariant
                *self == *old(self),
                self.wf(),
                size == self.board.size,
                rolled_position == self.position + die_value,
                rolled_position <= size,
                whole == self.board@.settled(rolled_position),
                slid_position <= size,
                climbs + slides + hops_left <= size,
                self.board@.chain(slid_position, hops_left as nat).rest == whole.rest,
                climbs + self.board@.chain(slid_position, hops_left as nat).climbs == whole.climbs,
                slides + self.board@.chain(slid_position, hops_left as nat).slides == whole.slides,
                climbed + self.board@.chain(slid_position, hops_left as nat).climbed
                    == whole.climbed,
                slid + self.board@.chain(slid_position, hops_left as nat).slid == whole.slid,
            ensures
                slid_position <= size,
                slid_position == whole.rest,
                climbs == whole.climbs,
                slides == whole.slides,
                climbed == whole.climbed,
                slid == whole.slid,
            decreases hops_left,
        {
            if hops_left == 0 {
                break ;
            }
            let to = match self.board.routes.get(&slid_position) {
                Some(p) => *p,
                None => {
                    break ;
                },
            };
            if to > slid_position {
                let delta = to - slid_position;
                if delta > usize::MAX - climbed {
                    return None;
                }
                climbs += 1;
                climbed += delta;
            } else {
                let delta = slid_position - to;
                if delta > usize::MAX - slid {
                    return None;
                }
                slides += 1;
                slid += delta;
            }
            slid_position = to;
            hops_left -= 1;
        }
        if self.board.routes.contains_key(&slid_position) {
            return None;
        }
        let unlucky = self.is_unlucky_roll(&rolled_position);
        let lucky = !unlucky && self.is_lucky_roll(&rolled_position);
        if climbs > usize::MAX - self.climb_count || slides > usize::MAX - self.slide_count
            || climbed > usize::MAX - self.climb_distance || slid > usize::MAX
            - self.slide_distance || (unlucky && self.unlucky_rolls == usize::MAX) || (lucky
            && self.lucky_rolls == usize::MAX) {
            return None;
        }
        self.roll_count += 1;
        self.position = slid_position;
        self.climb_count += climbs;
        self.slide_count += slides;
        self.climb_distance += climbed;
        self.slide_distance += slid;
        // Unlucky goes before lucky: missing one snake and landing on another is no luck.
        if unlucky {
            self.unlucky_rolls += 1;
        } else if lucky {
            self.lucky_rolls += 1;
        }
        Some(RollResult { die_value, climb_distance: climbed, slide_distance: slid })
    }

    /// Resolves a roll of `die_value`: counts it, moves the token unless the
    /// roll would pass the winning square, follows the routes from the square
    /// reached to the end of their chain, and scores the luck of that square.
    pub fn roll_resolve(&mut self, die_value: usize) -> (res: RollResult)
        requires
            old(self).wf(),
            old(self).board@.roll_fits(old(self)@, die_value),
        ensures
            final(self).wf(),
            final(self).same_game(old(self)),
            final(self)@ == old(self).board@.moved(old(self)@, die_value),
            res.die_value == die_value,
            res.climb_distance == final(self)@.climb_distance - old(self)@.climb_distance,
            res.slide_distance == final(self)@.slide_distance - old(self)@.slide_distance,
            old(self).position + die_value > old(self).board.size ==> {
                &&& final(self)@ == (Stats { roll_count: old(self)@.roll_count + 1, ..old(self)@ })
                &&& final(self).position == old(self).position
                &&& res.climb_distance == 0
                &&& res.slide_distance == 0
            },
            old(self).position + die_value <= old(self).board.size ==> {
                let target = (old(self).position + die_value) as usize;
                let chain = old(self).board@.settled(target);
                &&& final(self).position == chain.rest
                &&& !final(self).board.routes@.contains_key(final(self).position)
                &&& final(self).roll_count == old(self).roll_count + 1
                &&& final(self).climb_count == old(self).climb_count + chain.climbs
                &&& final(self).slide_count == old(self).slide_count + chain.slides
                &&& res.climb_distance == chain.climbed
                &&& res.slide_distance == chain.slid
                &&& target + res.climb_distance == final(self).position + res.slide_distance
                &&& old(self).unlucky_spaces@.contains(target) ==> {
                    &&& final(self).unlucky_rolls == old(self).unlucky_rolls + 1
                    &&& final(self).lucky_rolls == old(self).lucky_rolls
                }
                &&& !old(self).unlucky_spaces@.contains(target) ==> {
                    &&& final(self).unlucky_rolls == old(self).unlucky_rolls
                    &&& old(self).lucky_spaces@.contains(target) ==> final(self).lucky_rolls
                        == old(self).lucky_rolls + 1
                    &&& !old(self).lucky_spaces@.contains(target) ==> final(self).lucky_rolls
                        == old(self).lucky_rolls
                }
            },
    {
        proof {
            if old(self).position + die_value <= old(self).board.size {
                lemma_chain_adds_up(
                    self.board@,
                    (self.position + die_value) as usize,
                    self.board.size as nat,
                );
            }
        }
        self.try_roll_resolve(die_value).unwrap()
    }

    /// The die source can serve the next turn: a source of chance always
    /// can, a script if it holds the faces of the whole turn.
    pub open spec fn can_take_turn(&self) -> bool {
        self.rng.script() matches Some(s) ==> self.board@.script_serves_turn(self@, s)
    }

    /// `self` is what a turn of `rolls` makes of `before`: the faces came
    /// from the die source, they are the faces of exactly one turn, and the
    /// figures are those after that turn.
    pub open spec fn took_turn(&self, before: &Sim<R>, rolls: Seq<usize>) -> bool {
        &&& before.board@.is_turn(before@, rolls)
        &&& self@ == before.board@.after_turn(before@, rolls)
        &&& drawn(before.rng.script(), rolls, self.rng.script())
    }

    /// Plays one turn: rolls, and rolls again as long as the die shows its
    /// highest face and the game is not won. The answer is `false` where the
    /// turn was cut short, because it could not be counted or one of its
    /// rolls could not be resolved.
    pub fn turn(&mut self) -> (finished: bool)
        requires
            old(self).wf(),
            old(self).can_take_turn(),
        ensures
            final(self).wf(),
            final(self).same_board(old(self)),
            exists|rolls: Seq<usize>|
                {
                    &&& #[trigger] final(self).took_turn(old(self), rolls)
                    &&& finished == !old(self).board@.turn_stalls(old(self)@, rolls)
                    &&& finished ==> final(self).roll_count == old(self).roll_count + rolls.len()
                    &&& finished && old(self).position != old(self).board.size ==> {
                        &&& rolls.len() >= 1
                        &&& forall|i: int| 0 <= i < rolls.len() - 1 ==> #[trigger] rolls[i] == DIE_SIZE
                        &&& rolls.last() != DIE_SIZE || final(self).position
                            == final(self).board.size
                    }
                },
            finished ==> final(self).turn_count == old(self).turn_count + 1,
            !finished && old(self).turn_count == usize::MAX ==> *final(self) == *old(self),
            old(self).position == old(self).board.size ==> {
                &&& final(self).rng == old(self).rng
                &&& finished == (old(self).turn_count < usize::MAX)
                &&& finished ==> final(self)@ == (Stats {
                    turn_count: old(self)@.turn_count + 1,
                    ..old(self)@
                })
            },
    {
        let ghost start = self@;
        let ghost script = self.rng.script();
        if self.turn_count == usize::MAX {
            proof {
                let none = Seq::<usize>::empty();
                if let Some(s) = script {
                    assert(none =~= s.take(0));
                    assert(s.skip(0) =~= s);
                }
                assert(self.took_turn(old(self), none));
            }
            return false;
        }
        self.turn_count += 1;
        let mut turn_climb: usize = 0;
        let mut turn_slide: usize = 0;
        let mut die_rolls: Vec<usize> = Vec::new();
        let mut finished = true;
        proof {
            if let Some(s) = script {
                assert(die_rolls@ =~= s.take(0));
                assert(s.skip(0) =~= s);
            }
        }
        loop
            invariant_except_break
                finished,
                self.roll_count == old(self).roll_count + die_rolls.len(),
                die_rolls.len() > 0 ==> {
                    &&& die_rolls@.last() == DIE_SIZE
                    &&& self.board@.roll_fits(
                        self.board@.after_rolls(start, die_rolls@.drop_last()),
                        die_rolls@.last(),
                    )
                },
            invariant
                self.wf(),
                self.same_board(old(self)),
                start == old(self)@,
                script == old(self).rng.script(),
                start.turn_count < usize::MAX,
                old(self).can_take_turn(),
                self.board@.after_rolls(start, die_rolls@).turn_count == start.turn_count,
                self.board@.after_rolls(start, die_rolls@).biggest_climb == start.biggest_climb,
                self.board@.after_rolls(start, die_rolls@).biggest_slide == start.biggest_slide,
                self.board@.after_rolls(start, die_rolls@).longest_turn == start.longest_turn,
                self@ == (Stats {
                    turn_count: start.turn_count + 1,
                    ..self.board@.after_rolls(start, die_rolls@)
                }),
                forall|i: int|
                    0 <= i < die_rolls.len() ==> self.board@.rolls_again(
                        start,
                        #[trigger] die_rolls@.take(i),
                    ),
                drawn(script, die_rolls@, self.rng.script()),
                die_rolls.len() == 0 ==> self.rng == old(self).rng,
                turn_climb == self@.climb_distance - start.climb_distance,
                turn_slide == self@.slide_distance - start.slide_distance,
            ensures
                !self.board@.rolls_again(start, die_rolls@),
                finished == !self.board@.turn_stalls(start, die_rolls@),
                finished ==> self.roll_count == old(self).roll_count + die_rolls.len(),
            decreases usize::MAX - self.roll_count,
        {
            if self.has_won() {
                break ;
            }
            let ghost sofar = die_rolls@;
            let ghost now = self.board@.after_rolls(start, sofar);
            proof {
                assert(self.board@.rolls_again(start, sofar));
                if let Some(s) = script {
                    lemma_turn_has_next_face(self.board@, start, s, sofar.len() as int);
                }
            }
            let face = self.rng.roll();
            let resolved = self.try_roll_resolve(face);
            die_rolls.push(face);
            proof {
                let rolls = die_rolls@;
                assert(rolls.drop_last() =~= sofar);
                assert(self.board@.roll_fits(now, face) == self.board@.roll_fits(
                    Stats { turn_count: start.turn_count + 1, ..now },
                    face,
                ));
                assert forall|i: int| 0 <= i < rolls.len() implies self.board@.rolls_again(
                    start,
                    #[trigger] rolls.take(i),
                ) by {
                    if i < sofar.len() {
                        assert(rolls.take(i) =~= sofar.take(i));
                    } else {
                        assert(rolls.take(i) =~= sofar);
                    }
                }
                if let Some(s) = script {
                    assert(rolls =~= s.take(rolls.len() as int));
                    assert(s.skip(sofar.len() as int).drop_first() =~= s.skip(rolls.len() as int));
                }
            }
            match resolved {
                None => {
                    finished = false;
                    break ;
                },
                Some(result) => {
                    turn_climb += result.climb_distance;
                    turn_slide += result.slide_distance;
                    if face != DIE_SIZE {
                        break ;
                    }
                },
            }
        }
        // Keep the figures of the turn.
        if turn_climb > self.biggest_climb {
            self.biggest_climb = turn_climb;
        }
        if turn_slide > self.biggest_slide {
            self.biggest_slide = turn_slide;
        }
        let ghost rolls = die_rolls@;
        if turn_is_greater(&die_rolls, &self.longest_turn) {
            self.longest_turn = die_rolls;
        }
        proof {
            assert(self.took_turn(old(self), rolls));
            if self.board@.won(start) {
                lemma_won_turn_only_counts(self.board@, start, rolls);
            } else if finished {
                lemma_turn_in_full(self.board@, start, rolls);
            }
        }
        finished
    }

    /// The die source can serve the whole run: a source of chance always
    /// can, a script if it holds the faces of every turn.
    pub open spec fn can_run(&self) -> bool {
        self.rng.script() matches Some(s) ==> self.board@.script_serves_game(self@, s)
    }

    /// `self` is what a run of `turns` makes of `before`: the faces came from
    /// the die source, the turns are those of one run, and the figures are
    /// those after the last of them.
    pub open spec fn ran(&self, before: &Sim<R>, turns: Seq<Seq<usize>>) -> bool {
        &&& before.board@.is_game(before@, turns)
        &&& self@ == before.board@.after_turns(before@, turns)
        &&& drawn(before.rng.script(), all_rolls(turns), self.rng.script())
    }

    /// Plays turn after turn until the game is won, and says whether it is.
    /// It is not where a turn was cut short, by a roll onto routes that lead
    /// round in a circle or by a count at the limit of its type: the run ends
    /// there, with the game as it stands.
    pub fn run(&mut self) -> (won: bool)
        requires
            old(self).wf(),
            old(self).can_run(),
        ensures
            final(self).wf(),
            final(self).same_board(old(self)),
            won == final(self).board@.won(final(self)@),
            exists|turns: Seq<Seq<usize>>|
                {
                    &&& #[trigger] final(self).ran(old(self), turns)
                    &&& won || old(self).board@.ends_cut_short(old(self)@, turns)
                },
            old(self).position == old(self).board.size ==> *final(self) == *old(self),
            old(self).board@.figures_agree(old(self)@) ==> final(self).board@.figures_agree(
                final(self)@,
            ),
    {
        let ghost start = self@;
        let ghost script = self.rng.script();
        let ghost mut turns: Seq<Seq<usize>> = Seq::empty();
        proof {
            if let Some(s) = script {
                assert(all_rolls(turns) =~= s.take(0));
                assert(s.skip(0) =~= s);
            }
        }
        loop
            invariant_except_break
                self.can_run(),
                turns.len() > 0 ==> !self.board@.turn_stalls(
                    self.board@.after_turns(start, turns.drop_last()),
                    turns.last(),
                ),
            invariant
                self.wf(),
                self.same_board(old(self)),
                start == old(self)@,
                script == old(self).rng.script(),
                self@ == self.board@.after_turns(start, turns),
                self.board@.is_game_so_far(start, turns),
                drawn(script, all_rolls(turns), self.rng.script()),
                turns.len() == 0 ==> *self == *old(self),
            ensures
                !self.board@.plays_on(start, turns),
            decreases usize::MAX - self.turn_count,
        {
            if self.has_won() {
                break ;
            }
            let ghost before = *self;
            let ghost played = turns;
            proof {
                if let Some(s) = before.rng.script() {
                    lemma_script_serves_on(self.board@, before@, s, Seq::empty());
                }
            }
            let finished = self.turn();
            proof {
                let rolls = choose|rolls: Seq<usize>|
                    {
                        &&& #[trigger] self.took_turn(&before, rolls)
                        &&& finished == !before.board@.turn_stalls(before@, rolls)
                    };
                turns = played.push(rolls);
                assert(turns.drop_last() =~= played);
                assert(turns.last() == rolls);
                lemma_game_takes_turn(self.board@, start, played, rolls);
                lemma_drawn_in_a_row(
                    script,
                    all_rolls(played),
                    before.rng.script(),
                    rolls,
                    self.rng.script(),
                );
                if let Some(s) = before.rng.script() {
                    lemma_script_serves_on(self.board@, before@, s, rolls);
                }
            }
            if !finished {
                break ;
            }
        }
        proof {
            assert(self.ran(old(self), turns));
            if self.board@.won(start) {
                lemma_won_run_is_empty(self.board@, start, turns);
            }
            if self.board@.figures_agree(start) {
                lemma_run_keeps_figures(self.board@, start, turns);
            }
        }
        self.has_won()
    }

    /// Rolls the die once and resolves the face it shows.
    pub fn roll(&mut self) -> (res: RollResult)
        requires
            old(self).wf(),
            old(self).can_roll(),
        ensures
            final(self).wf(),
            final(self).same_board(old(self)),
            drawn(old(self).rng.script(), seq![res.die_value], final(self).rng.script()),
            final(self)@ == old(self).board@.moved(old(self)@, res.die_value),
            res.climb_distance == final(self)@.climb_distance - old(self)@.climb_distance,
            res.slide_distance == final(self)@.slide_distance - old(self)@.slide_distance,
    {
        let die_value = self.rng.roll();
        proof {
            if let Some(s) = old(self).rng.script() {
                assert(seq![die_value] =~= s.take(1));
                assert(s.drop_first() =~= s.skip(1));
            }
            assert(old(self).board@.roll_fits(old(self)@, die_value));
        }
        self.roll_resolve(die_value)
    }
}

} // verus!
