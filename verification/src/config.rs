//! Boards from a written configuration: snakes and ladders listed as pairs.

use crate::boards::{check_route, route_defect, BadRouteError, Board, Geometry};
use std::collections::HashMap;
use vstd::prelude::*;

verus! {

/// A configuration as it is written down.
#[derive(Debug, PartialEq, Eq)]
pub struct ConfigFile {
    /// How many games to play.
    pub iterations: usize,
    /// The winning square.
    pub size: usize,
    /// The snakes, each as its start and its end.
    pub snakes: Vec<(usize, usize)>,
    /// The ladders, each as its start and its end.
    pub ladders: Vec<(usize, usize)>,
}

/// One of the routes of `list` ends above its start.
pub open spec fn some_rise(list: Seq<(usize, usize)>) -> bool {
    exists|i: int| 0 <= i < list.len() && (#[trigger] list[i]).0 < list[i].1
}

/// One of the routes of `list` ends below its start.
pub open spec fn some_fall(list: Seq<(usize, usize)>) -> bool {
    exists|i: int| 0 <= i < list.len() && (#[trigger] list[i]).0 > list[i].1
}

/// A route listed before place `i` starts on the square `from`.
pub open spec fn starts_before(list: Seq<(usize, usize)>, i: int, from: usize) -> bool {
    exists|j: int| 0 <= j < i && (#[trigger] list[j]).0 == from
}

/// What is wrong with the route at place `i` of `list`, if anything: its
/// first defect as a route, or else that a route before it has its start.
pub open spec fn listed_fault(size: usize, list: Seq<(usize, usize)>, i: int) -> Option<
    BadRouteError,
> {
    let (from, to) = list[i];
    match route_defect(size, from, to) {
        Some(e) => Some(e),
        None => if starts_before(list, i, from) {
            Some(BadRouteError::Duplicate(from))
        } else {
            None
        },
    }
}

/// The fault of the first faulty route among the first `n` of `list`.
pub open spec fn fault_within(size: usize, list: Seq<(usize, usize)>, n: int) -> Option<
    BadRouteError,
>
    decreases n,
{
    if n <= 0 {
        None
    } else {
        match fault_within(size, list, n - 1) {
            Some(e) => Some(e),
            None => listed_fault(size, list, n - 1),
        }
    }
}

/// The routes of `list` as a map from start to end, later ones over earlier ones.
pub open spec fn routes_of(list: Seq<(usize, usize)>) -> Map<usize, usize>
    decreases list.len(),
{
    if list.len() == 0 {
        Map::empty()
    } else {
        routes_of(list.drop_last()).insert(list.last().0, list.last().1)
    }
}

impl ConfigFile {
    /// All the routes in the order in which they are taken up: the snakes,
    /// then the ladders.
    pub open spec fn listed(&self) -> Seq<(usize, usize)> {
        self.snakes@ + self.ladders@
    }

    /// Why the configuration is turned down, if it is: a snake that rises;
    /// else a ladder that falls; else the fault of the first faulty route.
    pub open spec fn fault(&self) -> Option<BadRouteError> {
        if some_rise(self.snakes@) {
            Some(BadRouteError::SnakeGoesUp)
        } else if some_fall(self.ladders@) {
            Some(BadRouteError::LadderGoesDown)
        } else {
            fault_within(self.size, self.listed(), self.listed().len() as int)
        }
    }
}

/// A fault found among the first routes of a list is the fault of the list.
pub proof fn lemma_fault_stays(size: usize, list: Seq<(usize, usize)>, n: int, m: int)
    requires
        0 <= n <= m,
        fault_within(size, list, n) is Some,
    ensures
        fault_within(size, list, m) == fault_within(size, list, n),
    decreases m - n,
{
    if n < m {
        lemma_fault_stays(size, list, n, m - 1);
    }
}

/// Whether one of the routes of `list` ends above its start.
pub fn any_rise(list: &Vec<(usize, usize)>) -> (r: bool)
    ensures
        r == some_rise(list@),
{
    let mut i: usize = 0;
    while i < list.len()
        invariant
            i <= list.len(),
            forall|j: int| 0 <= j < i ==> !((#[trigger] list[j]).0 < list[j].1),
        decreases list.len() - i,
    {
        if list[i].0 < list[i].1 {
            return true;
        }
        i += 1;
    }
    false
}

/// Whether one of the routes of `list` ends below its start.
pub fn any_fall(list: &Vec<(usize, usize)>) -> (r: bool)
    ensures
        r == some_fall(list@),
{
    let mut i: usize = 0;
    while i < list.len()
        invariant
            i <= list.len(),
            forall|j: int| 0 <= j < i ==> !((#[trigger] list[j]).0 > list[j].1),
        decreases list.len() - i,
    {
        if list[i].0 > list[i].1 {
            return true;
        }
        i += 1;
    }
    false
}

/// The routes of `first` followed by those of `second`.
pub fn joined(first: &Vec<(usize, usize)>, second: &Vec<(usize, usize)>) -> (all: Vec<
    (usize, usize),
>)
    ensures
        all@ == first@ + second@,
{
    let mut all: Vec<(usize, usize)> = Vec::new();
    let mut i: usize = 0;
    while i < first.len()
        invariant
            i <= first.len(),
            all@ == first@.take(i as int),
        decreases first.len() - i,
    {
        all.push(first[i]);
        assert(all@ =~= first@.take(i + 1));
        i += 1;
    }
    let mut k: usize = 0;
    assert(all@ =~= first@ + second@.take(0));
    while k < second.len()
        invariant
            k <= second.len(),
            all@ == first@ + second@.take(k as int),
        decreases second.len() - k,
    {
        all.push(second[k]);
        assert(all@ =~= first@ + second@.take(k + 1));
        k += 1;
    }
    assert(second@.take(k as int) =~= second@);
    all
}

/// Makes the board of a configuration and hands it out with the number of
/// games to play. Snakes must not rise and ladders must not fall; then every
/// route, the snakes first, must be valid on the board and start where no
/// route before it starts.
pub fn load_cfg(v: &ConfigFile) -> (r: Result<(Board, usize), BadRouteError>)
    ensures
        match r {
            Ok((board, iterations)) => {
                &&& v.fault() is None
                &&& board@ == (Geometry { size: v.size, routes: routes_of(v.listed()) })
                &&& board@.wf()
                &&& iterations == v.iterations
            },
            Err(e) => v.fault() == Some(e),
        },
{
    if any_rise(&v.snakes) {
        return Err(BadRouteError::SnakeGoesUp);
    }
    if any_fall(&v.ladders) {
        return Err(BadRouteError::LadderGoesDown);
    }
    let routes_vec = joined(&v.snakes, &v.ladders);
    let ghost list = routes_vec@;
    let size = v.size;
    let mut routes: HashMap<usize, usize> = HashMap::new();
    let mut i: usize = 0;
    assert(list.take(0) =~= Seq::empty());
    while i < routes_vec.len()
        invariant
            i <= routes_vec.len(),
            list == routes_vec@,
            list == v.listed(),
            size == v.size,
            !some_rise(v.snakes@),
            !some_fall(v.ladders@),
            fault_within(size, list, i as int) is None,
            routes@ == routes_of(list.take(i as int)),
            forall|k: usize|
                #![trigger routes@.contains_key(k)]
                #![trigger starts_before(list, i as int, k)]
                routes@.contains_key(k) <==> starts_before(list, i as int, k),
            forall|k: usize| #[trigger]
                routes@.contains_key(k) ==> route_defect(size, k, routes@[k]) is None,
        decreases routes_vec.len() - i,
    {
        let (from, to) = routes_vec[i];
        let ghost before = routes@;
        match check_route(size, from, to) {
            Ok(_) => {},
            Err(e) => {
                proof {
                    lemma_fault_stays(size, list, i + 1, list.len() as int);
                }
                return Err(e);
            },
        }
        if routes.contains_key(&from) {
            proof {
                lemma_fault_stays(size, list, i + 1, list.len() as int);
            }
            return Err(BadRouteError::Duplicate(from));
        }
        routes.insert(from, to);
        proof {
            assert(list.take(i + 1).drop_last() =~= list.take(i as int));
            assert forall|k: usize| routes@.contains_key(k) <==> starts_before(
                list,
                i + 1,
                k,
            ) by {
                if starts_before(list, i + 1, k) {
                    let j = choose|j: int| 0 <= j < i + 1 && (#[trigger] list[j]).0 == k;
                    if j < i {
                        assert(starts_before(list, i as int, k));
                    }
                }
                if before.contains_key(k) {
                    assert(starts_before(list, i as int, k));
                    let j = choose|j: int| 0 <= j < i && (#[trigger] list[j]).0 == k;
                    assert(0 <= j < i + 1 && list[j].0 == k);
                }
                if k == from {
                    assert(list[i as int].0 == k);
                }
            }
        }
        i += 1;
    }
    assert(list.take(i as int) =~= list);
    match Board::new(size, routes) {
        Ok(board) => Ok((board, v.iterations)),
        Err(e) => Err(e),
    }
}

} // verus!
