//! Luck: which squares count as lucky or unlucky to land on.

use crate::boards::{Board, Geometry};
use std::collections::HashSet;
use vstd::prelude::*;

verus! {

impl Geometry {
    /// A snake starts on square `n`: a route from it to a lower square.
    pub open spec fn snake_at(&self, n: int) -> bool {
        &&& 0 <= n <= usize::MAX
        &&& self.routes.contains_key(n as usize)
        &&& self.routes[n as usize] < n
    }

    /// A ladder starts on square `n`: a route from it to a higher square.
    pub open spec fn ladder_at(&self, n: int) -> bool {
        &&& 0 <= n <= usize::MAX
        &&& self.routes.contains_key(n as usize)
        &&& self.routes[n as usize] > n
    }

    /// Square `n` counts as a neighbour with a snake: it lies above square 0
    /// and a snake starts on it.
    pub open spec fn near_miss(&self, n: int) -> bool {
        n > 0 && self.snake_at(n)
    }

    /// Landing on square `i` just misses a snake: one starts one or two
    /// squares before or after it.
    pub open spec fn near_snake(&self, i: int) -> bool {
        ||| self.near_miss(i - 2)
        ||| self.near_miss(i - 1)
        ||| self.near_miss(i + 1)
        ||| self.near_miss(i + 2)
    }

    /// Square `i` is unlucky: it lies below the winning square and a snake starts on it.
    pub open spec fn is_unlucky(&self, i: int) -> bool {
        0 <= i < self.size && self.snake_at(i)
    }

    /// Square `i` is lucky: it is the winning square, or it lies below it and
    /// either a ladder starts on it or it just misses a snake.
    pub open spec fn is_lucky(&self, i: int) -> bool {
        i == self.size || (0 <= i < self.size && (self.ladder_at(i) || self.near_snake(i)))
    }

    /// All the lucky squares.
    pub open spec fn lucky_squares(&self) -> Set<usize> {
        Set::new(|i: usize| self.is_lucky(i as int))
    }

    /// All the unlucky squares.
    pub open spec fn unlucky_squares(&self) -> Set<usize> {
        Set::new(|i: usize| self.is_unlucky(i as int))
    }

}

impl Board {
    /// Whether a snake starts on square `n`.
    pub fn has_snake(&self, n: usize) -> (r: bool)
        ensures
            r == self@.snake_at(n as int),
    {
        match self.routes.get(&n) {
            Some(to) => *to < n,
            None => false,
        }
    }

    /// Whether a ladder starts on square `n`.
    pub fn has_ladder(&self, n: usize) -> (r: bool)
        ensures
            r == self@.ladder_at(n as int),
    {
        match self.routes.get(&n) {
            Some(to) => *to > n,
            None => false,
        }
    }

    /// Whether landing on square `i` just misses a snake.
    pub fn misses_snake(&self, i: usize) -> (r: bool)
        ensures
            r == self@.near_snake(i as int),
    {
        if i > 2 && self.has_snake(i - 2) {
            return true;
        }
        if i > 1 && self.has_snake(i - 1) {
            return true;
        }
        if i < usize::MAX && self.has_snake(i + 1) {
            return true;
        }
        i < usize::MAX - 1 && self.has_snake(i + 2)
    }
}

/// The lucky and the unlucky squares depend on the winning square and the
/// routes alone: two boards that agree in these agree in their luck.
pub proof fn lemma_luck_follows_geometry(a: Board, b: Board)
    requires
        a.size == b.size,
        a.routes@ == b.routes@,
    ensures
        a@.lucky_squares() == b@.lucky_squares(),
        a@.unlucky_squares() == b@.unlucky_squares(),
{
    assert(a@ == b@);
}

/// The winning square is lucky and not unlucky, and so is no square beyond it.
pub proof fn lemma_winning_square_is_lucky(board: Geometry)
    ensures
        board.lucky_squares().contains(board.size),
        !board.unlucky_squares().contains(board.size),
        forall|i: usize|
            i > board.size ==> !board.lucky_squares().contains(i)
                && !board.unlucky_squares().contains(i),
{
}

/// Sorts the squares of a board into the lucky and the unlucky ones: the
/// first set holds the lucky squares, the second the unlucky ones. A square
/// may be in both.
pub fn compute_luck(board: &Board) -> (luck: (HashSet<usize>, HashSet<usize>))
    ensures
        luck.0@ == board@.lucky_squares(),
        luck.1@ == board@.unlucky_squares(),
{
    let mut lucky_spaces: HashSet<usize> = HashSet::new();
    let mut unlucky_spaces: HashSet<usize> = HashSet::new();
    let size = board.size;
    for i in 0..size
        invariant
            size == board.size,
            lucky_spaces@ == Set::new(|j: usize| j < i && board@.is_lucky(j as int)),
            unlucky_spaces@ == Set::new(|j: usize| j < i && board@.is_unlucky(j as int)),
    {
        if board.has_ladder(i) {
            lucky_spaces.insert(i);
        } else if board.has_snake(i) {
            unlucky_spaces.insert(i);
        }
        if board.misses_snake(i) {
            lucky_spaces.insert(i);
        }
        assert(lucky_spaces@ =~= Set::new(|j: usize| j < i + 1 && board@.is_lucky(j as int)));
        assert(unlucky_spaces@ =~= Set::new(|j: usize| j < i + 1 && board@.is_unlucky(j as int)));
    }
    // Finally, the winning square is lucky.
    lucky_spaces.insert(size);
    assert(lucky_spaces@ =~= board@.lucky_squares());
    assert(unlucky_spaces@ =~= board@.unlucky_squares());
    (lucky_spaces, unlucky_spaces)
}

} // verus!
