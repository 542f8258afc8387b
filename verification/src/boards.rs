//! Boards: the winning square and the routes between squares.

use std::collections::HashMap;
use vstd::prelude::*;

verus! {

/// Why a set of routes was turned down.
#[derive(Debug, Clone, Copy, PartialEq, Eq, Structural)]
pub enum BadRouteError {
    /// A route listed as a snake leads upwards.
    SnakeGoesUp,
    /// A route listed as a ladder leads downwards.
    LadderGoesDown,
    /// A route starts on square 0, on the winning square or beyond it. Holds the start.
    IllegalStart(usize),
    /// A route ends beyond the winning square. Holds the end.
    IllegalEnd(usize),
    /// A route leads to the square it starts on. Holds that square.
    SelfLink(usize),
    /// Two routes start on the same square. Holds that square.
    Duplicate(usize),
}

/// The character of the digit `d`, a number below 10.
pub open spec fn digit(d: nat) -> char {
    if d == 0 {
        '0'
    } else if d == 1 {
        '1'
    } else if d == 2 {
        '2'
    } else if d == 3 {
        '3'
    } else if d == 4 {
        '4'
    } else if d == 5 {
        '5'
    } else if d == 6 {
        '6'
    } else if d == 7 {
        '7'
    } else if d == 8 {
        '8'
    } else {
        '9'
    }
}

/// The number `n` written in decimal digits, without sign or leading zeros.
pub open spec fn decimal(n: nat) -> Seq<char>
    decreases n,
{
    if n < 10 {
        seq![digit(n)]
    } else {
        decimal(n / 10).push(digit(n % 10))
    }
}

/// `format!("{}{}", text, number)`: the text as it is, then the number as
/// std's `Display` for `usize` writes it, in decimal digits.
#[verifier::external_body]
fn with_number(text: &str, number: usize) -> (line: String)
    ensures
        line@ == text@ + decimal(number as nat),
{
    format!("{}{}", text, number)
}

impl BadRouteError {
    /// The error in words, with the square it is about.
    pub open spec fn wording(self) -> Seq<char> {
        match self {
            BadRouteError::SnakeGoesUp => "Some snake(s) are going upwards!"@,
            BadRouteError::LadderGoesDown => "Some ladders(s) are going downwards!"@,
            BadRouteError::IllegalStart(from) => "Illegal snake/ladder start position: "@
                + decimal(from as nat),
            BadRouteError::IllegalEnd(to) => "Illegal snake/ladder end position: "@ + decimal(
                to as nat,
            ),
            BadRouteError::SelfLink(from) => "Snake or ladder links to itself on square "@
                + decimal(from as nat),
            BadRouteError::Duplicate(from) => "Duplicate snake or ladder from square "@
                + decimal(from as nat),
        }
    }

    /// The error in words, with the square it is about.
    pub fn message(&self) -> (text: String)
        ensures
            text@ == self.wording(),
    {
        match self {
            BadRouteError::SnakeGoesUp => "Some snake(s) are going upwards!".to_owned(),
            BadRouteError::LadderGoesDown => "Some ladders(s) are going downwards!".to_owned(),
            BadRouteError::IllegalStart(from) => with_number(
                "Illegal snake/ladder start position: ",
                *from,
            ),
            BadRouteError::IllegalEnd(to) => with_number(
                "Illegal snake/ladder end position: ",
                *to,
            ),
            BadRouteError::SelfLink(from) => with_number(
                "Snake or ladder links to itself on square ",
                *from,
            ),
            BadRouteError::Duplicate(from) => with_number(
                "Duplicate snake or ladder from square ",
                *from,
            ),
        }
    }
}

/// The geometry of a game: squares `0..=size`, and routes from square to square.
#[derive(Debug)]
pub struct Board {
    /// The winning square.
    pub size: usize,
    /// Snakes and ladders alike, each from its start to its end.
    pub routes: HashMap<usize, usize>,
}

/// The first defect of the route `from -> to` on a board of `size`, if it has one:
/// its start is tested first, then its end, then whether it links a square to itself.
pub open spec fn route_defect(size: usize, from: usize, to: usize) -> Option<BadRouteError> {
    if from == 0 || from >= size {
        Some(BadRouteError::IllegalStart(from))
    } else if to > size {
        Some(BadRouteError::IllegalEnd(to))
    } else if from == to {
        Some(BadRouteError::SelfLink(from))
    } else {
        None
    }
}

/// Every route starts on a square from 1 to `size - 1`, ends on one from 0 to
/// `size`, and does not end where it starts.
pub open spec fn routes_valid(size: usize, routes: Map<usize, usize>) -> bool {
    forall|from: usize| #[trigger]
        routes.contains_key(from) ==> route_defect(size, from, routes[from]) is None
}

/// Tests one route as `route_defect` says.
pub fn check_route(size: usize, from: usize, to: usize) -> (r: Result<(), BadRouteError>)
    ensures
        match r {
            Ok(_) => route_defect(size, from, to) is None,
            Err(e) => route_defect(size, from, to) == Some(e),
        },
{
    if from == 0 || from >= size {
        Err(BadRouteError::IllegalStart(from))
    } else if to > size {
        Err(BadRouteError::IllegalEnd(to))
    } else if from == to {
        Err(BadRouteError::SelfLink(from))
    } else {
        Ok(())
    }
}

/// A board as the rules see it: its winning square and its routes, and
/// nothing of how they are stored.
pub struct Geometry {
    /// The winning square.
    pub size: usize,
    /// The routes, each start with its end.
    pub routes: Map<usize, usize>,
}

impl View for Board {
    type V = Geometry;

    open spec fn view(&self) -> Geometry {
        Geometry { size: self.size, routes: self.routes@ }
    }
}

impl Clone for Board {
    fn clone(&self) -> (b: Board)
        ensures
            b@ == self@,
    {
        Board { size: self.size, routes: self.routes.clone() }
    }
}

/// What following the routes from one square adds up to.
pub struct Chain {
    /// The square on which the chain ends.
    pub rest: usize,
    /// How many of its routes lead upwards.
    pub climbs: nat,
    /// How many of its routes lead downwards.
    pub slides: nat,
    /// Squares gained on the routes that lead upwards.
    pub climbed: nat,
    /// Squares lost on the routes that lead downwards.
    pub slid: nat,
}

impl Chain {
    /// How many routes the chain follows.
    pub open spec fn hops(self) -> nat {
        self.climbs + self.slides
    }
}

impl Geometry {
    /// A board as the games need it: with valid routes.
    pub open spec fn wf(&self) -> bool {
        routes_valid(self.size, self.routes)
    }

    /// Follows the routes from square `p`, one after the other, for at most
    /// `hops` of them, and adds up what they do.
    pub open spec fn chain(&self, p: usize, hops: nat) -> Chain
        decreases hops,
    {
        if hops == 0 || !self.routes.contains_key(p) {
            Chain { rest: p, climbs: 0, slides: 0, climbed: 0, slid: 0 }
        } else {
            let q = self.routes[p];
            let tail = self.chain(q, (hops - 1) as nat);
            if q > p {
                Chain { climbs: tail.climbs + 1, climbed: tail.climbed + (q - p) as nat, ..tail }
            } else {
                Chain { slides: tail.slides + 1, slid: tail.slid + (p - q) as nat, ..tail }
            }
        }
    }

    /// The whole chain from `p`. A chain that ends at all leaves no square
    /// twice, and every square it leaves lies below `size`: `size` hops are
    /// then more than it needs (`lemma_chain_ends_within_size`).
    pub open spec fn settled(&self, p: usize) -> Chain {
        self.chain(p, self.size as nat)
    }

    /// The chain from `p` comes to rest: it ends on a square without a route.
    /// It does not where the routes lead round in a circle.
    pub open spec fn settles(&self, p: usize) -> bool {
        !self.routes.contains_key(self.settled(p).rest)
    }
}

impl Board {
    /// Makes a board of `size` with `routes`, if every route is valid. If not,
    /// the error is the first defect of one of the faulty routes; which of
    /// them, where there are several, is left open.
    pub fn new(size: usize, routes: HashMap<usize, usize>) -> (r: Result<Board, BadRouteError>)
        ensures
            r is Ok <==> routes_valid(size, routes@),
            r matches Ok(b) ==> b@ == (Geometry { size, routes: routes@ }) && b@.wf(),
            r matches Err(e) ==> exists|from: usize| #[trigger]
                routes@.contains_key(from) && route_defect(size, from, routes@[from]) == Some(e),
    {
        for (from, to) in it: routes.iter()
            invariant
                forall|j: int|
                    0 <= j < it.index() ==> route_defect(
                        size,
                        *(#[trigger] it.seq()[j]).0,
                        *it.seq()[j].1,
                    ) is None,
        {
            match check_route(size, *from, *to) {
                Ok(_) => {},
                Err(e) => {
                    assert(routes@.contains_key(*from) && routes@[*from] == *to);
                    return Err(e);
                },
            }
        }
        Ok(Board { size, routes })
    }
}

/// What a chain adds up to fits its two ends: the squares gained less the
/// squares lost is the way from its first square to its last. It follows no
/// more routes than it was given hops, and where it was given more hops than
/// it follows routes it has come to rest.
pub proof fn lemma_chain_adds_up(board: Geometry, p: usize, hops: nat)
    ensures
        p + board.chain(p, hops).climbed == board.chain(p, hops).rest + board.chain(p, hops).slid,
        board.chain(p, hops).hops() <= hops,
        board.chain(p, hops).hops() < hops ==> !board.routes.contains_key(
            board.chain(p, hops).rest,
        ),
    decreases hops,
{
    if hops > 0 && board.routes.contains_key(p) {
        lemma_chain_adds_up(board, board.routes[p], (hops - 1) as nat);
    }
}

/// A chain that has come to rest stays as it is however many more hops it is given.
pub proof fn lemma_chain_at_rest(board: Geometry, p: usize, hops: nat, more: nat)
    requires
        !board.routes.contains_key(board.chain(p, hops).rest),
        hops <= more,
    ensures
        board.chain(p, more) == board.chain(p, hops),
    decreases hops,
{
    if board.routes.contains_key(p) {
        lemma_chain_at_rest(board, board.routes[p], (hops - 1) as nat, (more - 1) as nat);
    }
}

/// On a valid board a chain from a square of the board ends on a square of the board.
pub proof fn lemma_chain_stays_on_board(board: Geometry, p: usize, hops: nat)
    requires
        board.wf(),
        p <= board.size,
    ensures
        board.chain(p, hops).rest <= board.size,
    decreases hops,
{
    if hops > 0 && board.routes.contains_key(p) {
        lemma_chain_stays_on_board(board, board.routes[p], (hops - 1) as nat);
    }
}

/// On a valid board every route of a chain gains or loses at least one
/// square: the chain climbs no more routes than squares, and slides no more
/// routes than squares.
pub proof fn lemma_chain_moves_on_each_route(board: Geometry, p: usize, hops: nat)
    requires
        board.wf(),
    ensures
        board.chain(p, hops).climbs <= board.chain(p, hops).climbed,
        board.chain(p, hops).slides <= board.chain(p, hops).slid,
    decreases hops,
{
    if hops > 0 && board.routes.contains_key(p) {
        lemma_chain_moves_on_each_route(board, board.routes[p], (hops - 1) as nat);
    }
}

/// A chain given `n` hops goes as one given `i` of them, and then on from
/// where that one ends with the hops that are left.
pub proof fn lemma_chain_in_two(board: Geometry, p: usize, n: nat, i: nat)
    requires
        i <= n,
    ensures
        board.chain(p, n).rest == board.chain(board.chain(p, i).rest, (n - i) as nat).rest,
        board.chain(p, n).hops() == board.chain(p, i).hops() + board.chain(
            board.chain(p, i).rest,
            (n - i) as nat,
        ).hops(),
    decreases i,
{
    if i > 0 && board.routes.contains_key(p) {
        lemma_chain_in_two(board, board.routes[p], (n - 1) as nat, (i - 1) as nat);
    }
}

/// A chain that follows `k` routes when given `n` hops follows `i` of them
/// when given `i <= k` hops, and does not end before the last of them.
pub proof fn lemma_chain_runs_on(board: Geometry, p: usize, n: nat, i: nat)
    requires
        i <= board.chain(p, n).hops(),
    ensures
        board.chain(p, i).hops() == i,
        i < board.chain(p, n).hops() ==> board.routes.contains_key(board.chain(p, i).rest),
    decreases i,
{
    if n > 0 && board.routes.contains_key(p) {
        if i > 0 {
            lemma_chain_runs_on(board, board.routes[p], (n - 1) as nat, (i - 1) as nat);
        }
    }
}

/// A chain that comes to rest leaves no square twice.
pub proof fn lemma_chain_passes_once(board: Geometry, p: usize, n: nat, i: nat, j: nat)
    requires
        !board.routes.contains_key(board.chain(p, n).rest),
        i < j < board.chain(p, n).hops(),
    ensures
        board.chain(p, i).rest != board.chain(p, j).rest,
{
    let k = board.chain(p, n).hops();
    lemma_chain_adds_up(board, p, n);
    lemma_chain_runs_on(board, p, n, i);
    lemma_chain_runs_on(board, p, n, j);
    lemma_chain_in_two(board, p, n, i);
    lemma_chain_in_two(board, p, n, j);
    let si = board.chain(p, i).rest;
    let sj = board.chain(p, j).rest;
    if si == sj {
        lemma_chain_at_rest(board, sj, (n - j) as nat, (n - i) as nat);
    }
}

/// On a valid board a chain that comes to rest at all has done so within
/// as many hops as the board has squares: the whole chain is that chain.
pub proof fn lemma_chain_ends_within_size(board: Geometry, p: usize, n: nat)
    requires
        board.wf(),
        !board.routes.contains_key(board.chain(p, n).rest),
    ensures
        board.settled(p) == board.chain(p, n),
        board.settles(p),
{
    let k = board.chain(p, n).hops();
    lemma_chain_adds_up(board, p, n);
    let left = Seq::new(k, |i: int| board.chain(p, i as nat).rest as int);
    assert forall|i: int, j: int| 0 <= i < left.len() && 0 <= j < left.len() && i != j implies left[i]
        != left[j] by {
        if i < j {
            lemma_chain_passes_once(board, p, n, i as nat, j as nat);
        } else {
            lemma_chain_passes_once(board, p, n, j as nat, i as nat);
        }
    }
    left.unique_seq_to_set();
    let below = vstd::set_lib::set_int_range(0, board.size as int);
    vstd::set_lib::lemma_int_range(0, board.size as int);
    assert forall|x: int| left.to_set().contains(x) implies below.contains(x) by {
        let i = choose|i: int| 0 <= i < left.len() && left[i] == x;
        lemma_chain_runs_on(board, p, n, i as nat);
        assert(board.routes.contains_key(board.chain(p, i as nat).rest));
    }
    vstd::set_lib::lemma_len_subset(left.to_set(), below);
    assert(k <= board.size);
    lemma_chain_runs_on(board, p, n, k);
    lemma_chain_in_two(board, p, n, k);
    let end = board.chain(p, k).rest;
    assert(board.chain(end, (n - k) as nat).hops() == 0);
    assert(board.chain(end, (n - k) as nat).rest == end);
    lemma_chain_at_rest(board, p, k, n);
    lemma_chain_at_rest(board, p, k, board.size as nat);
}

} // verus!
