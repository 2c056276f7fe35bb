//! A generic breadth-first puzzle solver.

use std::collections::{BTreeSet, HashSet};
use std::hash::Hash;
use vstd::prelude::*;
use vstd::laws_cmp::obeys_cmp;
use vstd::std_specs::hash::{builds_valid_hashers, obeys_key_model};

verus! {

/// A simple interface for sets used to keep track of visited states.
///
/// Instances are provided for `std::collections::HashSet` and
/// `std::collections::BTreeSet`.
pub trait VisitedSet<A>: Sized {
    /// The elements the set holds.
    spec fn contents(&self) -> vstd::set::Set<A>;

    /// Whether the backend's operations agree with `contents`, i.e. whether
    /// the element type's equality (and hash or order) behaves lawfully.
    spec fn faithful() -> bool;

    /// Creates a new, empty set.
    fn new() -> (r: Self)
        ensures
            Self::faithful() ==> r.contents() == vstd::set::Set::<A>::empty(),
    ;

    /// Adds an element to the set.
    fn add(&mut self, element: A)
        ensures
            Self::faithful() ==> final(self).contents() == old(self).contents().insert(element),
    ;

    /// Checks for the presence of an element.
    fn mem(&self, candidate: &A) -> (r: bool)
        ensures
            Self::faithful() ==> r == self.contents().contains(*candidate),
    ;
}

impl<A: Eq + Hash> VisitedSet<A> for HashSet<A> {
    open spec fn contents(&self) -> vstd::set::Set<A> {
        self@
    }

    open spec fn faithful() -> bool {
        obeys_key_model::<A>() && builds_valid_hashers::<std::hash::RandomState>()
    }

    fn new() -> (r: Self) {
        HashSet::new()
    }

    fn add(&mut self, element: A) {
        self.insert(element);
    }

    fn mem(&self, candidate: &A) -> (r: bool) {
        self.contains(candidate)
    }
}

impl<A: Eq + Ord> VisitedSet<A> for BTreeSet<A> {
    open spec fn contents(&self) -> vstd::set::Set<A> {
        self@
    }

    open spec fn faithful() -> bool {
        obeys_cmp::<A>()
    }

    fn new() -> (r: Self) {
        BTreeSet::new()
    }

    fn add(&mut self, element: A) {
        self.insert(element);
    }

    fn mem(&self, candidate: &A) -> (r: bool) {
        self.contains(candidate)
    }
}

/// An interface to puzzle configurations.
///
/// A puzzle is modelled by the moves legal in each state (in the order in
/// which they are offered), the state each move leads to, and the goal
/// predicate.
pub trait Puzzle: Clone {
    /// The type of a move.
    type Move;

    /// The moves legal in this state, in enumeration order.
    spec fn legal_moves(&self) -> Seq<Self::Move>;

    /// The state reached by playing `a_move` here.
    spec fn successor(&self, a_move: Self::Move) -> Self;

    /// Whether this is a winning state.
    spec fn winning(&self) -> bool;

    /// Cloning a state yields an equal state.
    proof fn lemma_clone_equal(a: Self, b: Self)
        requires
            vstd::pervasive::strictly_cloned(a, b),
        ensures
            a == b,
    ;

    /// Applies a move to the state of the puzzle, returning a new puzzle state.
    fn make_move(&self, a_move: Self::Move) -> (r: Self)
        requires
            self.legal_moves().contains(a_move),
        ensures
            r == self.successor(a_move),
    ;

    /// Gets all moves possible in the current state.
    fn get_possible_moves(&self) -> (r: Vec<Self::Move>)
        ensures
            r@ == self.legal_moves(),
    ;

    /// Checks whether the current state is a winning state.
    fn is_final(&self) -> (r: bool)
        ensures
            r == self.winning(),
    ;
}

/// `b` is reached from `a` by one legal move.
pub open spec fn is_step<P: Puzzle>(a: P, b: P) -> bool {
    exists|m: P::Move| a.legal_moves().contains(m) && a.successor(m) == b
}

/// The `i`-th and the next state of `p` are one legal move apart.
pub open spec fn step_at<P: Puzzle>(p: Seq<P>, i: int) -> bool {
    is_step(p[i], p[i + 1])
}

/// `p` is a sequence of states that starts at `start` and in which each
/// state follows from the one before by a legal move.
pub open spec fn is_path_from<P: Puzzle>(start: P, p: Seq<P>) -> bool {
    &&& p.len() > 0
    &&& p[0] == start
    &&& forall|i: int| 0 <= i < p.len() - 1 ==> #[trigger] step_at(p, i)
}

/// Every legal move from a state of `u` leads to a state of `u`.
pub open spec fn closed_under_moves<P: Puzzle>(u: vstd::set::Set<P>) -> bool {
    forall|s: P, m: P::Move|
        #![trigger u.contains(s), s.legal_moves().contains(m)]
        u.contains(s) && s.legal_moves().contains(m) ==> u.contains(s.successor(m))
}

/// The states reachable from `start` lie in some finite set.
pub open spec fn finitely_reachable<P: Puzzle>(start: P) -> bool {
    exists|u: vstd::set::Set<P>| u.finite() && u.contains(start) && closed_under_moves(u)
}

/// A path through the states from the initial state to the final, winning state.
struct Path<P>(Vec<P>);

impl<P> View for Path<P> {
    type V = Seq<P>;

    closed spec fn view(&self) -> Seq<P> {
        self.0@
    }
}

impl<P: Puzzle> Path<P> {
    fn new(start: P) -> (r: Self)
        ensures
            r@ == seq![start],
    {
        Path(vec![start])
    }

    fn last(&self) -> (r: &P)
        requires
            self@.len() > 0,
        ensures
            *r == self@.last(),
    {
        &self.0[self.0.len() - 1]
    }

    fn push(&mut self, step: P)
        ensures
            final(self)@ == old(self)@.push(step),
    {
        self.0.push(step);
    }

    fn into_vec(self) -> (r: Vec<P>)
        ensures
            r@ == self@,
    {
        self.0
    }

    fn duplicate(&self) -> (r: Self)
        ensures
            r@ == self@,
    {
        let v = self.0.clone();
        proof {
            assert forall|i: int| 0 <= i < v@.len() implies v@[i] == self.0@[i] by {
                if vstd::pervasive::strictly_cloned(self.0[i], v[i]) {
                    P::lemma_clone_equal(self.0[i], v[i]);
                }
            }
            assert(v@ =~= self.0@);
        }
        Path(v)
    }
}


/// A prefix of a path is a path, and its last state steps to the path's last.
proof fn lemma_path_prefix<P: Puzzle>(start: P, q: Seq<P>)
    requires
        is_path_from(start, q),
        q.len() > 1,
    ensures
        is_path_from(start, q.drop_last()),
        is_step(q.drop_last().last(), q.last()),
{
    assert(step_at(q, q.len() - 2));
    assert forall|i: int| 0 <= i < q.drop_last().len() - 1 implies #[trigger] step_at(
        q.drop_last(),
        i,
    ) by {
        assert(step_at(q, i));
    }
}

/// A path extended by one legal move is a path.
proof fn lemma_path_extend<P: Puzzle>(start: P, p: Seq<P>, s: P)
    requires
        is_path_from(start, p),
        is_step(p.last(), s),
    ensures
        is_path_from(start, p.push(s)),
{
    assert forall|i: int| 0 <= i < p.push(s).len() - 1 implies #[trigger] step_at(p.push(s), i) by {
        if i < p.len() - 1 {
            assert(step_at(p, i));
        }
    }
}

/// A path that starts inside a set closed under moves stays inside it.
proof fn lemma_closed_holds_path<P: Puzzle>(start: P, q: Seq<P>, d: vstd::set::Set<P>)
    requires
        is_path_from(start, q),
        d.contains(start),
        closed_under_moves(d),
    ensures
        d.contains(q.last()),
    decreases q.len(),
{
    if q.len() > 1 {
        let prefix = q.drop_last();
        lemma_path_prefix(start, q);
        lemma_closed_holds_path(start, prefix, d);
        let m = choose|m: P::Move|
            prefix.last().legal_moves().contains(m) && prefix.last().successor(m) == q.last();
        assert(d.contains(prefix.last()) && prefix.last().legal_moves().contains(m));
    }
}

/// One path's share of a level: for each of the first `j` of `moves`, in
/// order, the state it leads to from the end of `p` is added to the seen
/// states, and `p` extended by it to the next frontier, unless that state
/// was seen already.
pub open spec fn extend_by_moves<P: Puzzle>(
    p: Seq<P>,
    moves: Seq<P::Move>,
    j: nat,
    acc: (Seq<Seq<P>>, vstd::set::Set<P>),
) -> (Seq<Seq<P>>, vstd::set::Set<P>)
    decreases j,
{
    if j == 0 {
        acc
    } else {
        let prev = extend_by_moves(p, moves, (j - 1) as nat, acc);
        let s = p.last().successor(moves[j - 1]);
        if prev.1.contains(s) {
            prev
        } else {
            (prev.0.push(p.push(s)), prev.1.insert(s))
        }
    }
}

/// The next frontier and seen states after the first `i` paths of a frontier
/// have been expanded, in order, with every legal move of their last state.
pub open spec fn expand_level<P: Puzzle>(
    paths: Seq<Seq<P>>,
    i: nat,
    acc: (Seq<Seq<P>>, vstd::set::Set<P>),
) -> (Seq<Seq<P>>, vstd::set::Set<P>)
    decreases i,
{
    if i == 0 {
        acc
    } else {
        let prev = expand_level(paths, (i - 1) as nat, acc);
        let p = paths[i - 1];
        extend_by_moves(p, p.last().legal_moves(), p.last().legal_moves().len(), prev)
    }
}

/// The first path, from index `k` on, that ends in a winning state.
pub open spec fn first_winning<P: Puzzle>(paths: Seq<Seq<P>>, k: nat) -> Option<Seq<P>>
    decreases paths.len() - k,
{
    if k >= paths.len() {
        None
    } else if paths[k as int].last().winning() {
        Some(paths[k as int])
    } else {
        first_winning(paths, k + 1)
    }
}

/// A frontier under construction, with its seen states, that revisits
/// nothing: each of its paths ends in a state outside `seen` that is now
/// seen, and no two of its paths end in the same state.
pub open spec fn revisits_nothing<P: Puzzle>(
    acc: (Seq<Seq<P>>, vstd::set::Set<P>),
    seen: vstd::set::Set<P>,
) -> bool {
    &&& seen.subset_of(acc.1)
    &&& forall|k: int|
        0 <= k < acc.0.len() ==> !seen.contains(#[trigger] acc.0[k].last()) && acc.1.contains(
            acc.0[k].last(),
        )
    &&& forall|k1: int, k2: int|
        0 <= k1 < k2 < acc.0.len() ==> (#[trigger] acc.0[k1]).last() != (#[trigger] acc.0[k2]).last()
}

proof fn lemma_extend_revisits_nothing<P: Puzzle>(
    p: Seq<P>,
    moves: Seq<P::Move>,
    j: nat,
    acc: (Seq<Seq<P>>, vstd::set::Set<P>),
    seen: vstd::set::Set<P>,
)
    requires
        revisits_nothing(acc, seen),
    ensures
        revisits_nothing(extend_by_moves(p, moves, j, acc), seen),
    decreases j,
{
    if j > 0 {
        lemma_extend_revisits_nothing(p, moves, (j - 1) as nat, acc, seen);
        let prev = extend_by_moves(p, moves, (j - 1) as nat, acc);
        let s = p.last().successor(moves[j - 1]);
        if !prev.1.contains(s) {
            let next = prev.0.push(p.push(s));
            assert(next[prev.0.len() as int].last() == s);
            assert forall|k: int| 0 <= k < prev.0.len() implies next[k] == prev.0[k] by {}
        }
    }
}

/// Breadth-first search inserts each state among the seen states at most
/// once: the paths that expanding the first `i` paths of a frontier adds to
/// the next frontier end in states not seen before, all distinct.
pub proof fn lemma_level_revisits_nothing<P: Puzzle>(
    paths: Seq<Seq<P>>,
    i: nat,
    seen: vstd::set::Set<P>,
)
    ensures
        revisits_nothing(expand_level(paths, i, (Seq::empty(), seen)), seen),
    decreases i,
{
    if i > 0 {
        lemma_level_revisits_nothing(paths, (i - 1) as nat, seen);
        let p = paths[i - 1];
        lemma_extend_revisits_nothing(
            p,
            p.last().legal_moves(),
            p.last().legal_moves().len(),
            expand_level(paths, (i - 1) as nat, (Seq::empty(), seen)),
            seen,
        );
    }
}

/// Level-by-level search from a frontier, for at most `fuel` further levels.
pub open spec fn search<P: Puzzle>(
    frontier: Seq<Seq<P>>,
    seen: vstd::set::Set<P>,
    fuel: nat,
) -> Option<Seq<P>>
    decreases fuel,
{
    if frontier.len() == 0 {
        None
    } else if first_winning(frontier, 0) is Some {
        first_winning(frontier, 0)
    } else if fuel == 0 {
        None
    } else {
        let next = expand_level(frontier, frontier.len(), (Seq::empty(), seen));
        search(next.0, next.1, (fuel - 1) as nat)
    }
}

/// A finite set of states, closed under moves, that holds `start`, where
/// one exists.
pub open spec fn state_space<P: Puzzle>(start: P) -> vstd::set::Set<P> {
    choose|u: vstd::set::Set<P>| u.finite() && u.contains(start) && closed_under_moves(u)
}

/// The path that breadth-first search from `start` finds: the first winning
/// path of the first level that holds one, each level being built from the
/// one before in frontier order and move order, skipping seen states.
pub open spec fn bfs_solution<P: Puzzle>(start: P) -> Option<Seq<P>> {
    search(seq![seq![start]], set![start], (state_space(start).len() + 1) as nat)
}

/// The paths of a frontier, as sequences of states.
spec fn path_views<P>(paths: Seq<Path<P>>) -> Seq<Seq<P>> {
    paths.map_values(|p: Path<P>| p@)
}

/// A BFS puzzle solver.
///
/// Parameterized by the type of the puzzle and the type of set to use to
/// store puzzle states.
pub struct Solver<P: Puzzle, S: VisitedSet<P> = HashSet<P>> {
    seen: S,
    todo: Vec<Path<P>>,
}

impl<P: Puzzle, S: VisitedSet<P>> Solver<P, S> {
    /// The configuration the search starts from.
    pub closed spec fn initial_state(&self) -> P {
        self.todo@[0]@[0]
    }

    /// No search has run yet: one path holding the initial state is waiting,
    /// and that state is the only one seen.
    pub closed spec fn is_fresh(&self) -> bool {
        &&& self.todo@.len() == 1
        &&& self.todo@[0]@ == seq![self.initial_state()]
        &&& self.seen.contents() == set![self.initial_state()]
    }

    /// Creates a new solver given the initial configuration of the puzzle.
    pub fn new(initial_configuration: P) -> (r: Self)
        ensures
            r.initial_state() == initial_configuration,
            S::faithful() ==> r.is_fresh(),
    {
        let mut seen = S::new();
        let copy = initial_configuration.clone();
        proof {
            if vstd::pervasive::strictly_cloned(initial_configuration, copy) {
                P::lemma_clone_equal(initial_configuration, copy);
            }
        }
        seen.add(copy);
        Solver { seen, todo: vec![Path::new(initial_configuration)] }
    }

    /// Solves the puzzle, returning a shortest path to a winning state, if
    /// one is reachable.
    pub fn solve(self) -> (r: Option<Vec<P>>)
        requires
            self.is_fresh(),
            S::faithful(),
            finitely_reachable(self.initial_state()),
        ensures
            match r {
                Some(p) => {
                    &&& is_path_from(self.initial_state(), p@)
                    &&& p@.last().winning()
                    &&& forall|q: Seq<P>|
                        is_path_from(self.initial_state(), q) && q.last().winning() ==> p@.len()
                            <= q.len()
                },
                None => forall|q: Seq<P>|
                    is_path_from(self.initial_state(), q) ==> !q.last().winning(),
            },
            match r {
                Some(p) => bfs_solution(self.initial_state()) == Some(p@),
                None => bfs_solution(self.initial_state()) == None::<Seq<P>>,
            },
    {
        let ghost init = self.initial_state();
        // A finite set of states, closed under moves, that holds every state seen.
        let ghost u = state_space(init);
        // Levels the model search may still take; each level that leaves a
        // frontier behind adds a seen state, so this never runs out.
        let ghost mut fuel: nat = (u.len() + 1) as nat;
        let mut seen = self.seen;
        let mut todo = self.todo;
        // The states of the levels before the current one: none is winning,
        // and every state one move from them has been seen.
        let ghost mut done = vstd::set::Set::<P>::empty();
        // The number of moves in each path of the frontier.
        let ghost mut depth: nat = 0;
        proof {
            assert(path_views(todo@) =~= seq![seq![init]]);
            assert(todo@[0]@.last() == init);
            assert forall|q: Seq<P>|
                is_path_from(init, q) && q.len() <= depth + 1 implies seen.contents().contains(
                q.last(),
            ) by {
                assert(q.last() == q[0]);
            }
        }
        while todo.len() > 0
            invariant
                init == self.initial_state(),
                S::faithful(),
                u.finite(),
                u.contains(init),
                closed_under_moves(u),
                seen.contents().subset_of(u),
                seen.contents().contains(init),
                search(path_views(todo@), seen.contents(), fuel) == bfs_solution(init),
                todo@.len() > 0 ==> fuel + seen.contents().len() >= u.len() + 1,
                forall|k: int|
                    0 <= k < todo@.len() ==> {
                        &&& is_path_from(init, #[trigger] todo@[k]@)
                        &&& todo@[k]@.len() == depth + 1
                        &&& seen.contents().contains(todo@[k]@.last())
                    },
                forall|s: P| #[trigger]
                    seen.contents().contains(s) ==> done.contains(s) || exists|k: int|
                        0 <= k < todo@.len() && todo@[k]@.last() == s,
                done.subset_of(seen.contents()),
                forall|k1: int, k2: int|
                    0 <= k1 < k2 < todo@.len() ==> (#[trigger] todo@[k1])@.last() != (
                    #[trigger] todo@[k2])@.last(),
                forall|s: P| #[trigger] done.contains(s) ==> !s.winning(),
                forall|s: P, m: P::Move|
                    #![trigger done.contains(s), s.legal_moves().contains(m)]
                    done.contains(s) && s.legal_moves().contains(m) ==> seen.contents().contains(
                        s.successor(m),
                    ),
                forall|q: Seq<P>|
                    #![trigger is_path_from(init, q)]
                    is_path_from(init, q) ==> (q.len() <= depth + 1 ==> seen.contents().contains(
                        q.last(),
                    )) && (q.len() <= depth ==> done.contains(q.last())),
            decreases u.len() - seen.contents().len() + (if todo.len() > 0 {
                1int
            } else {
                0int
            }),
        {
            proof {
                vstd::set_lib::lemma_len_subset(seen.contents(), u);
            }
            let paths = todo;
            todo = Vec::new();
            let ghost seen_old = seen.contents();
            let ghost done_old = done;
            let mut i: usize = 0;
            while i < paths.len()
                invariant
                    init == self.initial_state(),
                    S::faithful(),
                    u.finite(),
                    closed_under_moves(u),
                    seen_old.subset_of(seen.contents()),
                    seen.contents().subset_of(u),
                    0 <= i <= paths@.len(),
                    paths@.len() > 0,
                    search(path_views(paths@), seen_old, fuel) == bfs_solution(init),
                    fuel + seen_old.len() >= u.len() + 1,
                    (path_views(todo@), seen.contents()) == expand_level(
                        path_views(paths@),
                        i as nat,
                        (Seq::empty(), seen_old),
                    ),
                    first_winning(path_views(paths@), 0) == first_winning(
                        path_views(paths@),
                        i as nat,
                    ),
                    forall|k: int|
                        0 <= k < paths@.len() ==> {
                            &&& is_path_from(init, #[trigger] paths@[k]@)
                            &&& paths@[k]@.len() == depth + 1
                            &&& seen_old.contains(paths@[k]@.last())
                        },
                    forall|k: int| 0 <= k < i ==> !(#[trigger] paths@[k])@.last().winning(),
                    forall|k: int, m: P::Move|
                        0 <= k < i && #[trigger] paths@[k]@.last().legal_moves().contains(m)
                            ==> seen.contents().contains(paths@[k]@.last().successor(m)),
                    forall|s: P| #[trigger]
                        seen_old.contains(s) ==> done_old.contains(s) || exists|k: int|
                            0 <= k < paths@.len() && paths@[k]@.last() == s,
                    done_old.subset_of(seen_old),
                    forall|s: P| #[trigger] done_old.contains(s) ==> !s.winning(),
                    forall|s: P, m: P::Move|
                        #![trigger done_old.contains(s), s.legal_moves().contains(m)]
                        done_old.contains(s) && s.legal_moves().contains(m) ==> seen_old.contains(
                            s.successor(m),
                        ),
                    forall|q: Seq<P>|
                        #![trigger is_path_from(init, q)]
                        is_path_from(init, q) ==> (q.len() <= depth + 1 ==> seen_old.contains(
                            q.last(),
                        )) && (q.len() <= depth ==> done_old.contains(q.last())),
                    forall|k: int|
                        0 <= k < todo@.len() ==> {
                            &&& is_path_from(init, #[trigger] todo@[k]@)
                            &&& todo@[k]@.len() == depth + 2
                            &&& seen.contents().contains(todo@[k]@.last())
                            &&& !seen_old.contains(todo@[k]@.last())
                        },
                    forall|k1: int, k2: int|
                        0 <= k1 < k2 < todo@.len() ==> (#[trigger] todo@[k1])@.last() != (
                        #[trigger] todo@[k2])@.last(),
                    forall|s: P| #[trigger]
                        seen.contents().contains(s) ==> seen_old.contains(s) || exists|k: int|
                            0 <= k < todo@.len() && todo@[k]@.last() == s,
                decreases paths.len() - i,
            {
                let path = &paths[i];
                if path.last().is_final() {
                    proof {
                        assert forall|q: Seq<P>|
                            is_path_from(init, q) && q.last().winning() implies path@.len()
                            <= q.len() by {
                            if q.len() <= depth {
                                assert(done_old.contains(q.last()));
                            }
                        }
                    }
                    let found = path.duplicate();
                    let result = found.into_vec();
                    proof {
                        assert(result@ == paths@[i as int]@);
                        assert(path_views(paths@)[i as int] == result@);
                        assert(first_winning(path_views(paths@), i as nat) == Some(result@));
                    }
                    return Some(result);
                }
                let ghost last = path@.last();
                let mut moves = path.last().get_possible_moves();
                let ghost all_moves = moves@;
                let ghost mut j: int = 0;
                while moves.len() > 0
                    invariant
                        init == self.initial_state(),
                        S::faithful(),
                        u.finite(),
                        closed_under_moves(u),
                        seen_old.subset_of(seen.contents()),
                        seen.contents().subset_of(u),
                        0 <= i < paths@.len(),
                        path == paths@[i as int],
                        search(path_views(paths@), seen_old, fuel) == bfs_solution(init),
                        fuel + seen_old.len() >= u.len() + 1,
                        (path_views(todo@), seen.contents()) == extend_by_moves(
                            path@,
                            all_moves,
                            j as nat,
                            expand_level(path_views(paths@), i as nat, (Seq::empty(), seen_old)),
                        ),
                        first_winning(path_views(paths@), 0) == first_winning(
                            path_views(paths@),
                            i as nat,
                        ),
                        last == path@.last(),
                        !last.winning(),
                        is_path_from(init, path@),
                        path@.len() == depth + 1,
                        seen_old.contains(last),
                        all_moves == last.legal_moves(),
                        0 <= j <= all_moves.len(),
                        moves@ == all_moves.subrange(j, all_moves.len() as int),
                        forall|jj: int|
                            0 <= jj < j ==> seen.contents().contains(
                                last.successor(#[trigger] all_moves[jj]),
                            ),
                        forall|k: int| 0 <= k < i ==> !(#[trigger] paths@[k])@.last().winning(),
                        forall|k: int, m: P::Move|
                            0 <= k < i && #[trigger] paths@[k]@.last().legal_moves().contains(m)
                                ==> seen.contents().contains(paths@[k]@.last().successor(m)),
                        forall|k: int|
                            0 <= k < todo@.len() ==> {
                                &&& is_path_from(init, #[trigger] todo@[k]@)
                                &&& todo@[k]@.len() == depth + 2
                                &&& seen.contents().contains(todo@[k]@.last())
                                &&& !seen_old.contains(todo@[k]@.last())
                            },
                        forall|k1: int, k2: int|
                            0 <= k1 < k2 < todo@.len() ==> (#[trigger] todo@[k1])@.last() != (
                            #[trigger] todo@[k2])@.last(),
                        forall|s: P| #[trigger]
                            seen.contents().contains(s) ==> seen_old.contains(s) || exists|k: int|
                                0 <= k < todo@.len() && todo@[k]@.last() == s,
                    decreases moves.len(),
                {
                    let a_move = moves.remove(0);
                    proof {
                        assert(all_moves[j] == a_move);
                    }
                    let next_config = path.last().make_move(a_move);
                    proof {
                        assert(is_step(last, next_config));
                        assert(u.contains(last) && last.legal_moves().contains(a_move));
                    }
                    let ghost seen_before = seen.contents();
                    let ghost todo_before = todo@;
                    if !seen.mem(&next_config) {
                        let copy = next_config.clone();
                        proof {
                            if vstd::pervasive::strictly_cloned(next_config, copy) {
                                P::lemma_clone_equal(next_config, copy);
                            }
                            lemma_path_extend(init, path@, next_config);
                        }
                        seen.add(copy);
                        let mut next_path = path.duplicate();
                        next_path.push(next_config);
                        todo.push(next_path);
                        proof {
                            assert(path_views(todo@) =~= path_views(todo_before).push(next_path@));
                            assert(todo@ == todo_before.push(next_path));
                            assert(todo@[todo_before.len() as int]@.last() == next_config);
                            assert forall|s: P| #[trigger]
                                seen.contents().contains(s) implies seen_old.contains(s) || exists|
                                k: int,
                            | 0 <= k < todo@.len() && todo@[k]@.last() == s by {
                                if s != next_config && !seen_old.contains(s) {
                                    assert(seen_before.contains(s));
                                    let k = choose|k: int|
                                        0 <= k < todo_before.len() && todo_before[k]@.last() == s;
                                    assert(todo@[k] == todo_before[k]);
                                }
                            }
                        }
                    }
                    proof {
                        j = j + 1;
                    }
                }
                proof {
                    assert forall|k: int, m: P::Move|
                        0 <= k < i + 1 && #[trigger] paths@[k]@.last().legal_moves().contains(m)
                        implies seen.contents().contains(paths@[k]@.last().successor(m)) by {
                        if k == i {
                            let jj = choose|jj: int| 0 <= jj < all_moves.len() && all_moves[jj] == m;
                            assert(seen.contents().contains(last.successor(all_moves[jj])));
                        }
                    }
                    let pv = path_views(paths@);
                    assert(pv[i as int] == path@);
                    assert(expand_level(pv, (i + 1) as nat, (Seq::empty(), seen_old))
                        == extend_by_moves(
                        path@,
                        all_moves,
                        all_moves.len(),
                        expand_level(pv, i as nat, (Seq::empty(), seen_old)),
                    ));
                    assert(first_winning(pv, i as nat) == first_winning(pv, (i + 1) as nat));
                }
                i += 1;
            }
            proof {
                let seen_new = seen.contents();
                let pv = path_views(paths@);
                assert(first_winning(pv, pv.len()) is None);
                vstd::set_lib::lemma_len_subset(seen_old, u);
                assert(search(pv, seen_old, fuel) == search(
                    path_views(todo@),
                    seen_new,
                    (fuel - 1) as nat,
                ));
                fuel = (fuel - 1) as nat;
                assert forall|q: Seq<P>| #![trigger is_path_from(init, q)]
                    is_path_from(init, q) && q.len() <= depth + 2 implies seen_new.contains(q.last()) by {
                    if q.len() == depth + 2 {
                        let prefix = q.drop_last();
                        lemma_path_prefix(init, q);
                        let s = prefix.last();
                        assert(is_path_from(init, prefix));
                        assert(seen_old.contains(s));
                        let m = choose|m: P::Move| s.legal_moves().contains(m) && s.successor(m) == q.last();
                        if done_old.contains(s) {
                            assert(done_old.contains(s) && s.legal_moves().contains(m));
                        } else {
                            let k = choose|k: int| 0 <= k < paths@.len() && paths@[k]@.last() == s;
                            assert(paths@[k]@.last().legal_moves().contains(m));
                        }
                    }
                }
                assert forall|s: P| #[trigger] seen_old.contains(s) implies !s.winning() by {
                    if !done_old.contains(s) {
                        let k = choose|k: int| 0 <= k < paths@.len() && paths@[k]@.last() == s;
                        assert(!paths@[k]@.last().winning());
                    }
                }
                assert forall|s: P, m: P::Move|
                    #![trigger seen_old.contains(s), s.legal_moves().contains(m)]
                    seen_old.contains(s) && s.legal_moves().contains(m) implies seen_new.contains(
                        s.successor(m),
                    ) by {
                    if done_old.contains(s) {
                        assert(done_old.contains(s) && s.legal_moves().contains(m));
                    } else {
                        let k = choose|k: int| 0 <= k < paths@.len() && paths@[k]@.last() == s;
                        assert(paths@[k]@.last().legal_moves().contains(m));
                    }
                }
                done = seen_old;
                depth = depth + 1;
                vstd::set_lib::lemma_len_subset(seen_new, u);
                vstd::set_lib::lemma_len_subset(seen_old, seen_new);
                if todo@.len() > 0 {
                    let x = todo@[0]@.last();
                    assert(seen_old.subset_of(seen_new.remove(x)));
                    vstd::set_lib::lemma_len_subset(seen_old, seen_new.remove(x));
                }
            }
        }
        proof {
            assert forall|s: P, m: P::Move|
                #![trigger done.contains(s), s.legal_moves().contains(m)]
                done.contains(s) && s.legal_moves().contains(m) implies done.contains(s.successor(m)) by {
                assert(done.contains(s) && s.legal_moves().contains(m));
            }
            assert forall|q: Seq<P>| is_path_from(init, q) implies !q.last().winning() by {
                lemma_closed_holds_path(init, q, done);
            }
        }
        None
    }
}


/// The counting game: from a number, step down by one or up by two; ten wins.
///
/// A step that would leave the range of `i32` is not offered.
impl Puzzle for i32 {
    type Move = i32;

    open spec fn legal_moves(&self) -> Seq<i32> {
        (if *self > i32::MIN {
            seq![-1i32]
        } else {
            Seq::empty()
        }) + (if *self <= i32::MAX - 2 {
            seq![2i32]
        } else {
            Seq::empty()
        })
    }

    open spec fn successor(&self, a_move: i32) -> i32 {
        (*self + a_move) as i32
    }

    open spec fn winning(&self) -> bool {
        *self == 10
    }

    proof fn lemma_clone_equal(a: i32, b: i32) {
    }

    fn make_move(&self, a_move: i32) -> (r: i32) {
        proof {
            let k = choose|k: int| 0 <= k < self.legal_moves().len() && self.legal_moves()[k] == a_move;
            assert(a_move == -1 && *self > i32::MIN || a_move == 2 && *self <= i32::MAX - 2);
        }
        *self + a_move
    }

    fn get_possible_moves(&self) -> (r: Vec<i32>) {
        let mut moves: Vec<i32> = Vec::new();
        if *self > i32::MIN {
            moves.push(-1);
        }
        if *self <= i32::MAX - 2 {
            moves.push(2);
        }
        proof {
            assert(moves@ =~= self.legal_moves());
        }
        moves
    }

    fn is_final(&self) -> (r: bool) {
        *self == 10
    }
}


/// The counting game confined to the numbers from `low` to `high`: step down
/// by one or up by two without leaving that window; reaching `goal` wins.
#[derive(Clone, Copy, PartialEq, Eq, Structural, Hash, Debug)]
pub struct Confined {
    pub value: i32,
    pub low: i32,
    pub high: i32,
    pub goal: i32,
}

impl Confined {
    /// Whether stepping by `a_move` stays inside the window.
    pub open spec fn keeps_inside(&self, a_move: int) -> bool {
        self.low <= self.value + a_move <= self.high
    }
}

impl Puzzle for Confined {
    type Move = i32;

    open spec fn legal_moves(&self) -> Seq<i32> {
        (if self.keeps_inside(-1) {
            seq![-1i32]
        } else {
            Seq::empty()
        }) + (if self.keeps_inside(2) {
            seq![2i32]
        } else {
            Seq::empty()
        })
    }

    open spec fn successor(&self, a_move: i32) -> Confined {
        Confined { value: (self.value + a_move) as i32, ..*self }
    }

    open spec fn winning(&self) -> bool {
        self.value == self.goal
    }

    proof fn lemma_clone_equal(a: Confined, b: Confined) {
    }

    fn make_move(&self, a_move: i32) -> (r: Confined) {
        proof {
            let k = choose|k: int| 0 <= k < self.legal_moves().len() && self.legal_moves()[k] == a_move;
            assert(a_move == -1 && self.keeps_inside(-1) || a_move == 2 && self.keeps_inside(2));
        }
        Confined { value: self.value + a_move, ..*self }
    }

    fn get_possible_moves(&self) -> (r: Vec<i32>) {
        let mut moves: Vec<i32> = Vec::new();
        let value = self.value as i64;
        if self.low as i64 <= value - 1 && value - 1 <= self.high as i64 {
            moves.push(-1);
        }
        if self.low as i64 <= value + 2 && value + 2 <= self.high as i64 {
            moves.push(2);
        }
        proof {
            assert(moves@ =~= self.legal_moves());
        }
        moves
    }

    fn is_final(&self) -> (r: bool) {
        self.value == self.goal
    }
}


/// The confined game can be searched to the end from any start: the states
/// reachable from `start` lie among the numbers of the window and `start`
/// itself.
pub proof fn lemma_confined_finitely_reachable(start: Confined)
    ensures
        finitely_reachable(start),
{
    let lo = if start.value < start.low {
        start.value as int
    } else {
        start.low as int
    };
    let hi = if start.value > start.high {
        start.value as int
    } else {
        start.high as int
    };
    let at = |v: int| Confined { value: v as i32, ..start };
    let range = vstd::set_lib::set_int_range(lo, hi + 1);
    vstd::set_lib::lemma_int_range(lo, hi + 1);
    range.lemma_map_finite(at);
    let u = range.map(at);
    assert(range.contains(start.value as int) && at(start.value as int) == start);
    assert forall|s: Confined, m: i32|
        #![trigger u.contains(s), s.legal_moves().contains(m)]
        u.contains(s) && s.legal_moves().contains(m) implies u.contains(s.successor(m)) by {
        let v = choose|v: int| range.contains(v) && at(v) == s;
        let k = choose|k: int| 0 <= k < s.legal_moves().len() && s.legal_moves()[k] == m;
        let t = s.successor(m);
        assert(m == -1 && s.keeps_inside(-1) || m == 2 && s.keeps_inside(2));
        assert(range.contains(t.value as int) && at(t.value as int) == t);
    }
}

} // verus!
