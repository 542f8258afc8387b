//! Die sources: where the faces of a game come from.

use rand::rngs::ThreadRng;
use rand::Rng;
use vstd::prelude::*;

verus! {

/// Number of faces of the die, and so its highest face. At least 1.
pub const DIE_SIZE: usize = 6;

/// `rand::rngs::ThreadRng`, the handle to a thread's random generator. It is
/// carried about as it is; nothing is said of what it holds.
#[verifier::external_type_specification]
#[verifier::external_body]
pub struct ExThreadRng(ThreadRng);

/// A source of die faces: a die of chance, or a list of faces fixed in advance.
pub trait Roll {
    /// What is known of the faces to come. `Some(s)` says that exactly the
    /// faces of `s` are left, the next one first, and none after them. `None`
    /// says that the source never runs dry and that its faces are not known
    /// before they are drawn.
    spec fn script(&self) -> Option<Seq<usize>>;

    /// Draws the next face. A scripted source must have a face left. A source
    /// of chance gives a face of the die, from 1 to `DIE_SIZE`.
    fn roll(&mut self) -> (face: usize)
        requires
            old(self).script() matches Some(s) ==> s.len() > 0,
        ensures
            match old(self).script() {
                Some(s) => face == s[0] && final(self).script() == Some(s.drop_first()),
                None => final(self).script() is None && 1 <= face <= DIE_SIZE,
            },
    ;
}

/// `faces` are what a source draws, in order, on its way from `before` to
/// `after`: the head of its script, which then holds what is left; or, from a
/// source of chance, faces of the die.
pub open spec fn drawn(
    before: Option<Seq<usize>>,
    faces: Seq<usize>,
    after: Option<Seq<usize>>,
) -> bool {
    match before {
        Some(s) => {
            &&& faces.len() <= s.len()
            &&& faces == s.take(faces.len() as int)
            &&& after == Some(s.skip(faces.len() as int))
        },
        None => {
            &&& after is None
            &&& forall|i: int| 0 <= i < faces.len() ==> 1 <= #[trigger] faces[i] <= DIE_SIZE
        },
    }
}

/// What is drawn in two stretches is drawn in one.
pub proof fn lemma_drawn_in_a_row(
    before: Option<Seq<usize>>,
    first: Seq<usize>,
    between: Option<Seq<usize>>,
    then: Seq<usize>,
    after: Option<Seq<usize>>,
)
    requires
        drawn(before, first, between),
        drawn(between, then, after),
    ensures
        drawn(before, first + then, after),
{
    if let Some(s) = before {
        let n = first.len() as int;
        let m = then.len() as int;
        assert(first + then =~= s.take(n + m));
        assert(s.skip(n).skip(m) =~= s.skip(n + m));
    }
}

/// A die of chance: each roll asks the thread's random generator for a face.
impl Roll for ThreadRng {
    open spec fn script(&self) -> Option<Seq<usize>> {
        None
    }

    fn roll(&mut self) -> (face: usize) {
        random_between(self, 1, DIE_SIZE + 1)
    }
}

/// `rand::Rng::gen_range(low, high)` on the thread's generator. The range is
/// half open: the value is at least `low` and below `high`; which one it is
/// depends on chance and is left open. The call panics unless `low` is below
/// `high`.
#[verifier::external_body]
fn random_between(rng: &mut ThreadRng, low: usize, high: usize) -> (face: usize)
    requires
        low < high,
    ensures
        low <= face < high,
{
    rng.gen_range(low, high)
}

/// `rand::thread_rng()`: a handle to the generator of the running thread,
/// which the first call on a thread seeds from the system. Nothing is known
/// of the faces it will give.
#[verifier::external_body]
pub(crate) fn thread_die() -> (rng: ThreadRng) {
    rand::thread_rng()
}

/// A die that cannot be rolled at all: for a game that must never draw.
pub struct Unrollable {}

impl Roll for Unrollable {
    open spec fn script(&self) -> Option<Seq<usize>> {
        Some(Seq::empty())
    }

    /// Never to be called: there is no face to give.
    fn roll(&mut self) -> (face: usize) {
        vstd::pervasive::unreached()
    }
}

/// A die that gives faces fixed in advance, then has none left.
pub struct MockDie {
    /// The faces to give, taken from the back: the last one is drawn first.
    pub queued_results: Vec<usize>,
}

impl Roll for MockDie {
    open spec fn script(&self) -> Option<Seq<usize>> {
        Some(self.queued_results@.reverse())
    }

    fn roll(&mut self) -> (face: usize) {
        let ghost before = self.queued_results@;
        let face = self.queued_results.pop().unwrap();
        assert(self.queued_results@.reverse() =~= before.reverse().drop_first());
        face
    }
}

} // verus!
