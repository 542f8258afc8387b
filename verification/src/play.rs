//! The rules of play, stated on the figures of a game.

use crate::boards::{
    lemma_chain_adds_up, lemma_chain_moves_on_each_route, lemma_chain_stays_on_board, Geometry,
};
use crate::dice::{drawn, DIE_SIZE};
use vstd::prelude::*;

verus! {

/// The figures of one game: where the token stands and what has been counted.
pub struct Stats {
    /// The square of the token, 0 before the first move.
    pub position: nat,
    /// Turns begun.
    pub turn_count: nat,
    /// Rolls resolved, those that moved nothing included.
    pub roll_count: nat,
    /// Routes followed upwards.
    pub climb_count: nat,
    /// Routes followed downwards.
    pub slide_count: nat,
    /// Squares gained on routes.
    pub climb_distance: nat,
    /// Squares lost on routes.
    pub slide_distance: nat,
    /// The most squares gained on routes within one turn.
    pub biggest_climb: nat,
    /// The most squares lost on routes within one turn.
    pub biggest_slide: nat,
    /// The greatest sequence of faces rolled within one turn.
    pub longest_turn: Seq<usize>,
    /// Rolls that landed on a lucky square and on no unlucky one.
    pub lucky_rolls: nat,
    /// Rolls that landed on an unlucky square.
    pub unlucky_rolls: nat,
}

impl Stats {
    /// The figures of a game that has not begun.
    pub open spec fn start() -> Stats {
        Stats {
            position: 0,
            turn_count: 0,
            roll_count: 0,
            climb_count: 0,
            slide_count: 0,
            climb_distance: 0,
            slide_distance: 0,
            biggest_climb: 0,
            biggest_slide: 0,
            longest_turn: Seq::empty(),
            lucky_rolls: 0,
            unlucky_rolls: 0,
        }
    }

    /// Every count is one that a `usize` can hold.
    pub open spec fn fits(self) -> bool {
        &&& self.position <= usize::MAX
        &&& self.turn_count <= usize::MAX
        &&& self.roll_count <= usize::MAX
        &&& self.climb_count <= usize::MAX
        &&& self.slide_count <= usize::MAX
        &&& self.climb_distance <= usize::MAX
        &&& self.slide_distance <= usize::MAX
        &&& self.biggest_climb <= usize::MAX
        &&& self.biggest_slide <= usize::MAX
        &&& self.lucky_rolls <= usize::MAX
        &&& self.unlucky_rolls <= usize::MAX
    }
}

/// Turn `a` is greater than turn `b`: at the first place where they differ
/// `a` has the higher face, or `b` ends there and `a` goes on.
pub open spec fn turn_exceeds(a: Seq<usize>, b: Seq<usize>) -> bool
    decreases a.len(),
{
    if a.len() == 0 {
        false
    } else if b.len() == 0 {
        true
    } else if a[0] != b[0] {
        a[0] > b[0]
    } else {
        turn_exceeds(a.drop_first(), b.drop_first())
    }
}

/// Whether turn `a` is greater than turn `b`.
pub fn turn_is_greater(a: &Vec<usize>, b: &Vec<usize>) -> (r: bool)
    ensures
        r == turn_exceeds(a@, b@),
{
    let mut i: usize = 0;
    assert(a@.skip(0) =~= a@ && b@.skip(0) =~= b@);
    while i < a.len() && i < b.len()
        invariant
            i <= a.len(),
            i <= b.len(),
            turn_exceeds(a@, b@) == turn_exceeds(a@.skip(i as int), b@.skip(i as int)),
        decreases a.len() - i,
    {
        if a[i] != b[i] {
            return a[i] > b[i];
        }
        assert(a@.skip(i as int).drop_first() =~= a@.skip(i + 1));
        assert(b@.skip(i as int).drop_first() =~= b@.skip(i + 1));
        i += 1;
    }
    i < a.len()
}

/// No turn is greater than itself, and of two turns not both are greater
/// than the other.
pub proof fn lemma_turn_exceeds_is_strict(a: Seq<usize>, b: Seq<usize>)
    ensures
        !turn_exceeds(a, a),
        !(turn_exceeds(a, b) && turn_exceeds(b, a)),
    decreases a.len(),
{
    if a.len() > 0 {
        lemma_turn_exceeds_is_strict(a.drop_first(), a.drop_first());
        if b.len() > 0 && a[0] == b[0] {
            lemma_turn_exceeds_is_strict(a.drop_first(), b.drop_first());
        }
    }
}

/// A turn greater than one that is greater than a third is greater than the third.
pub proof fn lemma_turn_exceeds_goes_on(a: Seq<usize>, b: Seq<usize>, c: Seq<usize>)
    requires
        turn_exceeds(a, b),
        turn_exceeds(b, c),
    ensures
        turn_exceeds(a, c),
    decreases a.len(),
{
    if c.len() > 0 && a[0] == b[0] && b[0] == c[0] {
        lemma_turn_exceeds_goes_on(a.drop_first(), b.drop_first(), c.drop_first());
    }
}

/// Of two turns that differ one is greater than the other.
pub proof fn lemma_turn_exceeds_decides(a: Seq<usize>, b: Seq<usize>)
    ensures
        a == b || turn_exceeds(a, b) || turn_exceeds(b, a),
    decreases a.len(),
{
    if a.len() == 0 || b.len() == 0 {
        if a.len() == 0 && b.len() == 0 {
            assert(a =~= b);
        }
    } else if a[0] == b[0] {
        lemma_turn_exceeds_decides(a.drop_first(), b.drop_first());
        if a.drop_first() == b.drop_first() {
            assert(a =~= seq![a[0]] + a.drop_first());
            assert(b =~= seq![b[0]] + b.drop_first());
        }
    }
}

/// The greater of two turns, the second where neither is greater.
pub open spec fn longer_turn(a: Seq<usize>, b: Seq<usize>) -> Seq<usize> {
    if turn_exceeds(a, b) {
        a
    } else {
        b
    }
}

/// The greater of two counts.
pub open spec fn larger(a: nat, b: nat) -> nat {
    if a >= b {
        a
    } else {
        b
    }
}

impl Geometry {
    /// The game is won: the token stands on the winning square.
    pub open spec fn won(&self, st: Stats) -> bool {
        st.position == self.size
    }

    /// The roll would pass the winning square.
    pub open spec fn overrolls(&self, st: Stats, die: usize) -> bool {
        st.position + die > self.size
    }

    /// What the rules make of a roll of `die`: past the winning square it
    /// only counts as a roll. Otherwise the token moves `die` squares on and
    /// follows the chain of routes from there to its end, every route of it
    /// counted; the square reached by the die alone decides on luck, and
    /// unlucky goes before lucky.
    pub open spec fn moved(&self, st: Stats, die: usize) -> Stats {
        if self.overrolls(st, die) {
            Stats { roll_count: st.roll_count + 1, ..st }
        } else {
            let target = st.position + die;
            let c = self.settled(target as usize);
            Stats {
                position: c.rest as nat,
                roll_count: st.roll_count + 1,
                climb_count: st.climb_count + c.climbs,
                slide_count: st.slide_count + c.slides,
                climb_distance: st.climb_distance + c.climbed,
                slide_distance: st.slide_distance + c.slid,
                unlucky_rolls: st.unlucky_rolls + if self.is_unlucky(target) {
                    1nat
                } else {
                    0nat
                },
                lucky_rolls: st.lucky_rolls + if !self.is_unlucky(target) && self.is_lucky(target) {
                    1nat
                } else {
                    0nat
                },
                ..st
            }
        }
    }

    /// A roll of `die` can be resolved: the chain it lands on comes to rest,
    /// and no count outgrows a `usize`.
    pub open spec fn roll_fits(&self, st: Stats, die: usize) -> bool {
        &&& !self.overrolls(st, die) ==> self.settles((st.position + die) as usize)
        &&& self.moved(st, die).fits()
    }

    /// The figures after a roll of `die`: as the rules say where the roll can
    /// be resolved, and unchanged where it cannot.
    pub open spec fn after_roll(&self, st: Stats, die: usize) -> Stats {
        if self.roll_fits(st, die) {
            self.moved(st, die)
        } else {
            st
        }
    }

    /// The figures after the rolls of `rolls`, one after the other.
    pub open spec fn after_rolls(&self, st: Stats, rolls: Seq<usize>) -> Stats
        decreases rolls.len(),
    {
        if rolls.len() == 0 {
            st
        } else {
            self.after_roll(self.after_rolls(st, rolls.drop_last()), rolls.last())
        }
    }

    /// A turn that has rolled `sofar` rolls again: the game is not won, and
    /// the last roll, if there was one, showed the highest face and could be
    /// resolved.
    pub open spec fn rolls_again(&self, st: Stats, sofar: Seq<usize>) -> bool {
        &&& !self.won(self.after_rolls(st, sofar))
        &&& sofar.len() > 0 ==> {
            &&& sofar.last() == DIE_SIZE
            &&& self.roll_fits(self.after_rolls(st, sofar.drop_last()), sofar.last())
        }
    }

    /// `rolls` are the faces that one turn draws from `st`, no more and no
    /// less. A turn that can no longer be counted draws none.
    pub open spec fn is_turn(&self, st: Stats, rolls: Seq<usize>) -> bool {
        if st.turn_count >= usize::MAX {
            rolls.len() == 0
        } else {
            &&& forall|i: int| 0 <= i < rolls.len() ==> self.rolls_again(st, #[trigger] rolls.take(i))
            &&& !self.rolls_again(st, rolls)
        }
    }

    /// The faces at the head of `script` make up the whole turn from `st`:
    /// the script does not run out before the turn is over.
    pub open spec fn script_serves_turn(&self, st: Stats, script: Seq<usize>) -> bool {
        exists|k: int| 0 <= k <= script.len() && self.is_turn(st, #[trigger] script.take(k))
    }

    /// How many faces the turn from `st` takes from the head of `script`.
    pub open spec fn turn_length(&self, st: Stats, script: Seq<usize>) -> int {
        choose|k: int| 0 <= k <= script.len() && self.is_turn(st, #[trigger] script.take(k))
    }

    /// `script` holds the faces of every turn of the run from `st`: it does
    /// not run out before the game is won or a turn is cut short.
    pub open spec fn script_serves_game(&self, st: Stats, script: Seq<usize>) -> bool
        decreases script.len(),
    {
        if self.won(st) {
            true
        } else {
            let k = self.turn_length(st, script);
            &&& self.script_serves_turn(st, script)
            &&& !self.turn_stalls(st, script.take(k)) ==> {
                &&& 0 < k <= script.len()
                &&& self.script_serves_game(self.after_turn(st, script.take(k)), script.skip(k))
            }
        }
    }

    /// The turn of `rolls` from `st` was cut short: it could not be counted,
    /// or its last roll could not be resolved.
    pub open spec fn turn_stalls(&self, st: Stats, rolls: Seq<usize>) -> bool {
        ||| st.turn_count >= usize::MAX
        ||| rolls.len() > 0 && !self.roll_fits(
            self.after_rolls(st, rolls.drop_last()),
            rolls.last(),
        )
    }

    /// The figures after the turn of `rolls`: the turn is counted, its rolls
    /// are resolved, and the most climbed, the most slid and the greatest
    /// sequence of faces of any turn are brought up to date.
    pub open spec fn after_turn(&self, st: Stats, rolls: Seq<usize>) -> Stats {
        if st.turn_count >= usize::MAX {
            st
        } else {
            let played = self.after_rolls(st, rolls);
            Stats {
                turn_count: st.turn_count + 1,
                biggest_climb: larger(
                    st.biggest_climb,
                    (played.climb_distance - st.climb_distance) as nat,
                ),
                biggest_slide: larger(
                    st.biggest_slide,
                    (played.slide_distance - st.slide_distance) as nat,
                ),
                longest_turn: longer_turn(rolls, st.longest_turn),
                ..played
            }
        }
    }

    /// The figures after the turns of `turns`, one after the other.
    pub open spec fn after_turns(&self, st: Stats, turns: Seq<Seq<usize>>) -> Stats
        decreases turns.len(),
    {
        if turns.len() == 0 {
            st
        } else {
            self.after_turn(self.after_turns(st, turns.drop_last()), turns.last())
        }
    }

    /// A game that has played `sofar` plays another turn: it is not won and
    /// its last turn, if there was one, was not cut short.
    pub open spec fn plays_on(&self, st: Stats, sofar: Seq<Seq<usize>>) -> bool {
        &&& !self.won(self.after_turns(st, sofar))
        &&& sofar.len() > 0 ==> !self.turn_stalls(
            self.after_turns(st, sofar.drop_last()),
            sofar.last(),
        )
    }

    /// `turns` are turns of a run from `st` that the rules allow, each in its
    /// place, whether or not the run ends with them.
    pub open spec fn is_game_so_far(&self, st: Stats, turns: Seq<Seq<usize>>) -> bool {
        forall|i: int|
            0 <= i < turns.len() ==> {
                &&& self.plays_on(st, #[trigger] turns.take(i))
                &&& self.is_turn(self.after_turns(st, turns.take(i)), turns[i])
            }
    }

    /// The run of `turns` from `st` ended with a turn that was cut short.
    pub open spec fn ends_cut_short(&self, st: Stats, turns: Seq<Seq<usize>>) -> bool {
        turns.len() > 0 && self.turn_stalls(self.after_turns(st, turns.drop_last()), turns.last())
    }

    /// `st` are the figures of a run on this board with a die of chance, from
    /// the start to where the run ended: with the game won, or else with a
    /// turn that was cut short, the game left as it stood.
    pub open spec fn is_outcome(&self, st: Stats) -> bool {
        exists|turns: Seq<Seq<usize>>|
            {
                &&& #[trigger] self.is_game(Stats::start(), turns)
                &&& st == self.after_turns(Stats::start(), turns)
                &&& drawn(None, all_rolls(turns), None)
                &&& self.won(st) || self.ends_cut_short(Stats::start(), turns)
            }
    }

    /// The figures hold together as those of a game do: the token is on the
    /// board, no more rolls are scored for luck than were rolled, no more
    /// routes were followed than squares gained or lost on them, and no turn
    /// gained or lost more than the whole game.
    pub open spec fn figures_agree(&self, st: Stats) -> bool {
        &&& st.position <= self.size
        &&& st.lucky_rolls + st.unlucky_rolls <= st.roll_count
        &&& st.climb_count <= st.climb_distance
        &&& st.slide_count <= st.slide_distance
        &&& st.biggest_climb <= st.climb_distance
        &&& st.biggest_slide <= st.slide_distance
    }

    /// No chain of routes from a square of the board leads round in a circle.
    pub open spec fn every_chain_settles(&self) -> bool {
        forall|p: usize| p <= self.size ==> #[trigger] self.settles(p)
    }

    /// `turns` are the turns that a run from `st` plays, each with the faces
    /// it draws: turn follows turn until the game is won or a turn is cut short.
    pub open spec fn is_game(&self, st: Stats, turns: Seq<Seq<usize>>) -> bool {
        &&& self.is_game_so_far(st, turns)
        &&& !self.plays_on(st, turns)
    }
}

/// The faces of all the turns of `turns`, in the order in which they were rolled.
pub open spec fn all_rolls(turns: Seq<Seq<usize>>) -> Seq<usize>
    decreases turns.len(),
{
    if turns.len() == 0 {
        Seq::empty()
    } else {
        all_rolls(turns.drop_last()) + turns.last()
    }
}

/// A roll past the winning square leaves the token where it is and follows
/// no route: it counts as a roll and changes nothing else.
pub proof fn lemma_overroll_moves_nothing(board: Geometry, st: Stats, die: usize)
    requires
        st.position + die > board.size,
    ensures
        board.moved(st, die) == (Stats { roll_count: st.roll_count + 1, ..st }),
        board.moved(st, die).position == st.position,
        board.moved(st, die).climb_distance == st.climb_distance,
        board.moved(st, die).slide_distance == st.slide_distance,
        board.after_roll(st, die).position == st.position,
        board.after_roll(st, die).climb_distance == st.climb_distance,
        board.after_roll(st, die).slide_distance == st.slide_distance,
{
}

/// A roll that lands on the board and can be resolved takes the token in
/// one step to the end of the chain that starts where the die puts it, a
/// square from which no route leads on, and counts every route of the chain.
pub proof fn lemma_roll_follows_whole_chain(board: Geometry, st: Stats, die: usize)
    requires
        st.position + die <= board.size,
        board.roll_fits(st, die),
    ensures
        ({
            let target = (st.position + die) as usize;
            let after = board.after_roll(st, die);
            &&& !board.routes.contains_key(after.position as usize)
            &&& after.position == board.settled(target).rest
            &&& after.climb_count == st.climb_count + board.settled(target).climbs
            &&& after.slide_count == st.slide_count + board.settled(target).slides
            &&& after.climb_distance == st.climb_distance + board.settled(target).climbed
            &&& after.slide_distance == st.slide_distance + board.settled(target).slid
            &&& target + (after.climb_distance - st.climb_distance) == after.position + (
            after.slide_distance - st.slide_distance)
        }),
{
    lemma_chain_adds_up(board, (st.position + die) as usize, board.size as nat);
}

/// A roll that lands on a square both lucky and unlucky is scored as
/// unlucky and not as lucky; and no roll is scored as both.
pub proof fn lemma_unlucky_goes_first(board: Geometry, st: Stats, die: usize)
    requires
        st.position + die <= board.size,
    ensures
        board.is_unlucky(st.position + die) ==> {
            &&& board.moved(st, die).unlucky_rolls == st.unlucky_rolls + 1
            &&& board.moved(st, die).lucky_rolls == st.lucky_rolls
        },
        board.moved(st, die).unlucky_rolls + board.moved(st, die).lucky_rolls <= st.unlucky_rolls
            + st.lucky_rolls + 1,
{
}

/// A game that is won stays won whatever is rolled.
pub proof fn lemma_won_stays_won(board: Geometry, st: Stats, die: usize)
    requires
        board.wf(),
        board.won(st),
    ensures
        board.won(board.moved(st, die)),
        board.won(board.after_roll(st, die)),
{
    if die == 0 {
        assert(!board.routes.contains_key(board.size));
    }
}

/// A turn taken when the game is won rolls nothing, and the game stays won.
pub proof fn lemma_won_turn_is_empty(board: Geometry, st: Stats, rolls: Seq<usize>)
    requires
        board.won(st),
        board.is_turn(st, rolls),
    ensures
        rolls.len() == 0,
        board.won(board.after_turn(st, rolls)),
{
    if st.turn_count < usize::MAX && rolls.len() > 0 {
        assert(board.rolls_again(st, rolls.take(0)));
        assert(rolls.take(0) =~= Seq::<usize>::empty());
    }
}

/// A run begun when the game is won plays no turn.
pub proof fn lemma_won_run_is_empty(board: Geometry, st: Stats, turns: Seq<Seq<usize>>)
    requires
        board.won(st),
        board.is_game(st, turns),
    ensures
        turns.len() == 0,
        board.after_turns(st, turns) == st,
{
    if turns.len() > 0 {
        assert(board.plays_on(st, turns.take(0)));
        assert(turns.take(0) =~= Seq::<Seq<usize>>::empty());
    }
}

/// Within a turn that can be counted, the turn rolls again after a roll
/// if and only if that roll showed the highest face, could be resolved, and
/// did not win the game; and a turn of a game not won rolls at least once.
pub proof fn lemma_turn_goes_on_after_highest_face(
    board: Geometry,
    st: Stats,
    rolls: Seq<usize>,
    i: int,
)
    requires
        st.turn_count < usize::MAX,
        board.is_turn(st, rolls),
        0 <= i < rolls.len(),
    ensures
        i + 1 < rolls.len() <==> {
            &&& rolls[i] == DIE_SIZE
            &&& board.roll_fits(board.after_rolls(st, rolls.take(i)), rolls[i])
            &&& !board.won(board.after_rolls(st, rolls.take(i + 1)))
        },
{
    let upto = rolls.take(i + 1);
    assert(upto.last() == rolls[i]);
    assert(upto.drop_last() =~= rolls.take(i));
    if i + 1 == rolls.len() {
        assert(upto =~= rolls);
    }
}

/// A turn of a game that is not won rolls at least once, and only once
/// where the first roll does not show the highest face.
pub proof fn lemma_turn_rolls_once(board: Geometry, st: Stats, rolls: Seq<usize>)
    requires
        st.turn_count < usize::MAX,
        !board.won(st),
        board.is_turn(st, rolls),
    ensures
        rolls.len() >= 1,
        rolls[0] != DIE_SIZE ==> rolls.len() == 1,
{
    if rolls.len() == 0 {
        assert(rolls =~= Seq::<usize>::empty());
    } else if rolls.len() > 1 {
        lemma_turn_goes_on_after_highest_face(board, st, rolls, 0);
    }
}

/// Rolls that can each be resolved are each counted.
pub proof fn lemma_resolved_rolls_are_counted(board: Geometry, st: Stats, rolls: Seq<usize>)
    requires
        forall|i: int|
            0 <= i < rolls.len() ==> board.roll_fits(
                board.after_rolls(st, #[trigger] rolls.take(i)),
                rolls[i],
            ),
    ensures
        board.after_rolls(st, rolls).roll_count == st.roll_count + rolls.len(),
        board.after_rolls(st, rolls).turn_count == st.turn_count,
    decreases rolls.len(),
{
    if rolls.len() > 0 {
        let before = rolls.drop_last();
        assert forall|i: int| 0 <= i < before.len() implies board.roll_fits(
            board.after_rolls(st, #[trigger] before.take(i)),
            before[i],
        ) by {
            assert(before.take(i) =~= rolls.take(i));
        }
        lemma_resolved_rolls_are_counted(board, st, before);
        assert(rolls.take(rolls.len() - 1) =~= before);
    }
}

/// A turn of a game not won that is not cut short, in full: it rolls at
/// least once; every roll but the last shows the highest face; the last does
/// not, or it wins the game; every one of its rolls is counted, and so is the turn.
pub proof fn lemma_turn_in_full(board: Geometry, st: Stats, rolls: Seq<usize>)
    requires
        !board.won(st),
        board.is_turn(st, rolls),
        !board.turn_stalls(st, rolls),
    ensures
        rolls.len() >= 1,
        forall|i: int| 0 <= i < rolls.len() - 1 ==> #[trigger] rolls[i] == DIE_SIZE,
        rolls.last() != DIE_SIZE || board.won(board.after_turn(st, rolls)),
        board.after_turn(st, rolls).roll_count == st.roll_count + rolls.len(),
        board.after_turn(st, rolls).turn_count == st.turn_count + 1,
{
    lemma_turn_rolls_once(board, st, rolls);
    assert(rolls.drop_last() =~= rolls.take(rolls.len() - 1));
    assert forall|i: int| 0 <= i < rolls.len() implies board.roll_fits(
        board.after_rolls(st, #[trigger] rolls.take(i)),
        rolls[i],
    ) by {
        if i + 1 < rolls.len() {
            lemma_turn_goes_on_after_highest_face(board, st, rolls, i);
        }
    }
    assert forall|i: int| 0 <= i < rolls.len() - 1 implies #[trigger] rolls[i] == DIE_SIZE by {
        lemma_turn_goes_on_after_highest_face(board, st, rolls, i);
    }
    lemma_resolved_rolls_are_counted(board, st, rolls);
}

/// A turn taken when the game is won, if it can be counted, is counted and
/// changes nothing else.
pub proof fn lemma_won_turn_only_counts(board: Geometry, st: Stats, rolls: Seq<usize>)
    requires
        board.won(st),
        board.is_turn(st, rolls),
        st.turn_count < usize::MAX,
    ensures
        board.after_turn(st, rolls) == (Stats { turn_count: st.turn_count + 1, ..st }),
        !board.turn_stalls(st, rolls),
{
    lemma_won_turn_is_empty(board, st, rolls);
    assert(rolls =~= Seq::<usize>::empty());
    lemma_turn_exceeds_is_strict(rolls, rolls);
}

/// A run ends with the game won or with a turn that was cut short.
pub proof fn lemma_game_ends_won_or_cut_short(
    board: Geometry,
    st: Stats,
    turns: Seq<Seq<usize>>,
)
    requires
        board.is_game(st, turns),
    ensures
        board.won(board.after_turns(st, turns)) || board.ends_cut_short(st, turns),
{
}

/// On a board without circles of routes a roll cannot be resolved only
/// where a count would outgrow its type.
pub proof fn lemma_cut_short_at_a_limit(board: Geometry, st: Stats, die: usize)
    requires
        board.every_chain_settles(),
        !board.roll_fits(st, die),
    ensures
        !board.moved(st, die).fits(),
{
}

/// Figures that hold together still do after a roll on a valid board, and
/// no count has gone down.
pub proof fn lemma_roll_keeps_figures(board: Geometry, st: Stats, die: usize)
    requires
        board.wf(),
        board.figures_agree(st),
    ensures
        board.figures_agree(board.moved(st, die)),
        board.figures_agree(board.after_roll(st, die)),
        board.after_roll(st, die).roll_count >= st.roll_count,
        board.after_roll(st, die).climb_distance >= st.climb_distance,
        board.after_roll(st, die).slide_distance >= st.slide_distance,
        board.after_roll(st, die).turn_count == st.turn_count,
        board.after_roll(st, die).biggest_climb == st.biggest_climb,
        board.after_roll(st, die).biggest_slide == st.biggest_slide,
        board.after_roll(st, die).longest_turn == st.longest_turn,
{
    if !board.overrolls(st, die) {
        let target = (st.position + die) as usize;
        lemma_chain_moves_on_each_route(board, target, board.size as nat);
        lemma_chain_stays_on_board(board, target, board.size as nat);
    }
}

/// Figures that hold together still do after any rolls on a valid board,
/// and no count has gone down.
pub proof fn lemma_rolls_keep_figures(board: Geometry, st: Stats, rolls: Seq<usize>)
    requires
        board.wf(),
        board.figures_agree(st),
    ensures
        board.figures_agree(board.after_rolls(st, rolls)),
        board.after_rolls(st, rolls).roll_count >= st.roll_count,
        board.after_rolls(st, rolls).climb_distance >= st.climb_distance,
        board.after_rolls(st, rolls).slide_distance >= st.slide_distance,
        board.after_rolls(st, rolls).turn_count == st.turn_count,
        board.after_rolls(st, rolls).biggest_climb == st.biggest_climb,
        board.after_rolls(st, rolls).biggest_slide == st.biggest_slide,
        board.after_rolls(st, rolls).longest_turn == st.longest_turn,
    decreases rolls.len(),
{
    if rolls.len() > 0 {
        lemma_rolls_keep_figures(board, st, rolls.drop_last());
        lemma_roll_keeps_figures(board, board.after_rolls(st, rolls.drop_last()), rolls.last());
    }
}

/// Figures that hold together still do after a turn on a valid board; the
/// turn is counted at most once and no roll is uncounted.
pub proof fn lemma_turn_keeps_figures(board: Geometry, st: Stats, rolls: Seq<usize>)
    requires
        board.wf(),
        board.figures_agree(st),
    ensures
        board.figures_agree(board.after_turn(st, rolls)),
        board.after_turn(st, rolls).roll_count >= st.roll_count,
        st.turn_count <= board.after_turn(st, rolls).turn_count <= st.turn_count + 1,
{
    lemma_rolls_keep_figures(board, st, rolls);
}

/// Of a run on a valid board from figures that hold together: the figures
/// still hold together; no more turns are counted than were played; and but
/// for the last turn, every turn has at least one roll that is counted. Where
/// the last turn was not cut short, every turn is counted and has such a roll.
pub proof fn lemma_run_keeps_figures(board: Geometry, st: Stats, turns: Seq<Seq<usize>>)
    requires
        board.wf(),
        board.figures_agree(st),
        board.is_game_so_far(st, turns),
    ensures
        board.figures_agree(board.after_turns(st, turns)),
        board.after_turns(st, turns).turn_count <= st.turn_count + turns.len(),
        turns.len() > 0 ==> board.after_turns(st, turns).roll_count >= st.roll_count + turns.len()
            - 1,
        !board.ends_cut_short(st, turns) ==> {
            &&& board.after_turns(st, turns).turn_count == st.turn_count + turns.len()
            &&& board.after_turns(st, turns).roll_count >= st.roll_count + turns.len()
        },
    decreases turns.len(),
{
    if turns.len() > 0 {
        let played = turns.drop_last();
        let mid = board.after_turns(st, played);
        assert(turns.take(turns.len() - 1) =~= played);
        assert(board.plays_on(st, played));
        assert(board.is_turn(mid, turns.last()));
        assert forall|i: int| 0 <= i < played.len() implies {
            &&& board.plays_on(st, #[trigger] played.take(i))
            &&& board.is_turn(board.after_turns(st, played.take(i)), played[i])
        } by {
            assert(played.take(i) =~= turns.take(i));
        }
        lemma_run_keeps_figures(board, st, played);
        lemma_turn_keeps_figures(board, mid, turns.last());
        if !board.turn_stalls(mid, turns.last()) {
            lemma_turn_in_full(board, mid, turns.last());
        }
    }
}

/// Of a run from the start on a valid board that ended with the game won:
/// the figures hold together, every turn played is counted, and no more turns
/// are counted than rolls. If the board has any square beyond the start, the
/// game has at least one turn and one roll.
pub proof fn lemma_won_game_has_rolls(board: Geometry, turns: Seq<Seq<usize>>)
    requires
        board.wf(),
        board.is_game(Stats::start(), turns),
        board.won(board.after_turns(Stats::start(), turns)),
    ensures
        board.figures_agree(board.after_turns(Stats::start(), turns)),
        board.after_turns(Stats::start(), turns).turn_count == turns.len(),
        board.after_turns(Stats::start(), turns).turn_count <= board.after_turns(
            Stats::start(),
            turns,
        ).roll_count,
        board.size > 0 ==> board.after_turns(Stats::start(), turns).roll_count >= 1,
{
    let st = Stats::start();
    lemma_run_keeps_figures(board, st, turns);
    if turns.len() > 0 {
        let mid = board.after_turns(st, turns.drop_last());
        let last = turns.last();
        assert(turns.take(turns.len() - 1) =~= turns.drop_last());
        assert(board.is_turn(mid, last));
        assert(board.plays_on(st, turns.drop_last()));
        if board.turn_stalls(mid, last) {
            // A turn cut short leaves the game as it stood before its last roll: not won.
            lemma_cut_short_turn_is_not_won(board, mid, last);
        }
    }
}

/// A turn that was cut short does not end with the game won, if it did not
/// begin so.
pub proof fn lemma_cut_short_turn_is_not_won(board: Geometry, st: Stats, rolls: Seq<usize>)
    requires
        !board.won(st),
        board.is_turn(st, rolls),
        board.turn_stalls(st, rolls),
    ensures
        !board.won(board.after_turn(st, rolls)),
{
    if st.turn_count < usize::MAX {
        let before = rolls.drop_last();
        assert(before =~= rolls.take(rolls.len() - 1));
        assert(board.rolls_again(st, rolls.take(rolls.len() - 1)));
    }
}

/// A turn that still rolls again after `n` faces of a script that serves it
/// has not used the script up.
pub proof fn lemma_turn_has_next_face(board: Geometry, st: Stats, script: Seq<usize>, n: int)
    requires
        st.turn_count < usize::MAX,
        board.script_serves_turn(st, script),
        0 <= n <= script.len(),
        forall|i: int| 0 <= i < n ==> board.rolls_again(st, #[trigger] script.take(n).take(i)),
        board.rolls_again(st, script.take(n)),
    ensures
        n < script.len(),
{
    let k = choose|k: int| 0 <= k <= script.len() && board.is_turn(st, #[trigger] script.take(k));
    if k < n {
        assert(script.take(n).take(k) =~= script.take(k));
    }
    if n == script.len() {
        assert(script.take(n) =~= script);
        if k == n {
            assert(script.take(k) =~= script.take(n));
        }
    }
}

/// Two turns from the same figures, both read from the head of one script, are the same turn.
pub proof fn lemma_turn_is_unique(board: Geometry, st: Stats, script: Seq<usize>, a: int, b: int)
    requires
        0 <= a <= script.len(),
        0 <= b <= script.len(),
        board.is_turn(st, script.take(a)),
        board.is_turn(st, script.take(b)),
    ensures
        a == b,
{
    if st.turn_count < usize::MAX {
        if a < b {
            assert(script.take(b).take(a) =~= script.take(a));
        }
        if b < a {
            assert(script.take(a).take(b) =~= script.take(b));
        }
    }
}

/// A run that plays on takes one more turn: the turns so far and that turn
/// are again turns of the run, the figures are those after that turn, and its
/// faces follow those of the turns before.
pub proof fn lemma_game_takes_turn(
    board: Geometry,
    st: Stats,
    played: Seq<Seq<usize>>,
    rolls: Seq<usize>,
)
    requires
        board.is_game_so_far(st, played),
        board.plays_on(st, played),
        board.is_turn(board.after_turns(st, played), rolls),
    ensures
        board.is_game_so_far(st, played.push(rolls)),
        board.after_turns(st, played.push(rolls)) == board.after_turn(
            board.after_turns(st, played),
            rolls,
        ),
        all_rolls(played.push(rolls)) == all_rolls(played) + rolls,
{
    let turns = played.push(rolls);
    assert(turns.drop_last() =~= played);
    assert forall|i: int| 0 <= i < turns.len() implies {
        &&& board.plays_on(st, #[trigger] turns.take(i))
        &&& board.is_turn(board.after_turns(st, turns.take(i)), turns[i])
    } by {
        if i < played.len() {
            assert(turns.take(i) =~= played.take(i));
        } else {
            assert(turns.take(i) =~= played);
        }
    }
}

/// A script that serves a run serves its next turn, and after that turn,
/// unless it was cut short, what is left of the script serves the rest of the run.
pub proof fn lemma_script_serves_on(board: Geometry, st: Stats, script: Seq<usize>, rolls: Seq<usize>)
    requires
        !board.won(st),
        board.script_serves_game(st, script),
    ensures
        board.script_serves_turn(st, script),
        board.is_turn(st, rolls) && rolls.len() <= script.len() && rolls == script.take(
            rolls.len() as int,
        ) && !board.turn_stalls(st, rolls) ==> board.script_serves_game(
            board.after_turn(st, rolls),
            script.skip(rolls.len() as int),
        ),
{
    if board.is_turn(st, rolls) && rolls.len() <= script.len() && rolls == script.take(
        rolls.len() as int,
    ) {
        let k = board.turn_length(st, script);
        lemma_turn_is_unique(board, st, script, k, rolls.len() as int);
    }
}

} // verus!
