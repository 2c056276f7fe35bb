//! An instance of the `Puzzle` trait for Klotski.

use crate::generic_solver::Puzzle;
use vstd::prelude::*;

verus! {

pub const WIDTH: usize = 4;

pub const HEIGHT: usize = 5;

pub const N_CELLS: usize = WIDTH * HEIGHT;

pub const N_PIECES: usize = 10;

pub const N_DIRECTIONS: usize = 4;

pub const N_MOVES: u64 = 40;

/// A piece on the board; `X0` marks an empty cell.
#[derive(PartialEq, Eq, Structural, Ord, PartialOrd, Copy, Clone, Hash, Debug)]
pub enum Piece {
    C0,
    C1,
    C2,
    C3,
    H0,
    S0,
    V0,
    V1,
    V2,
    V3,
    X0,
}

/// The code of a piece: its position in the list `C0, C1, C2, C3, H0, S0,
/// V0, V1, V2, V3`; the empty cell comes last.
pub open spec fn piece_code(p: Piece) -> nat {
    match p {
        Piece::C0 => 0,
        Piece::C1 => 1,
        Piece::C2 => 2,
        Piece::C3 => 3,
        Piece::H0 => 4,
        Piece::S0 => 5,
        Piece::V0 => 6,
        Piece::V1 => 7,
        Piece::V2 => 8,
        Piece::V3 => 9,
        Piece::X0 => 10,
    }
}

/// The piece with code `n`, for `n` below the number of pieces.
pub open spec fn piece_with_code(n: nat) -> Piece {
    if n == 0 {
        Piece::C0
    } else if n == 1 {
        Piece::C1
    } else if n == 2 {
        Piece::C2
    } else if n == 3 {
        Piece::C3
    } else if n == 4 {
        Piece::H0
    } else if n == 5 {
        Piece::S0
    } else if n == 6 {
        Piece::V0
    } else if n == 7 {
        Piece::V1
    } else if n == 8 {
        Piece::V2
    } else {
        Piece::V3
    }
}

impl Piece {
    fn code(self) -> (r: u64)
        ensures
            r == piece_code(self),
    {
        match self {
            Piece::C0 => 0,
            Piece::C1 => 1,
            Piece::C2 => 2,
            Piece::C3 => 3,
            Piece::H0 => 4,
            Piece::S0 => 5,
            Piece::V0 => 6,
            Piece::V1 => 7,
            Piece::V2 => 8,
            Piece::V3 => 9,
            Piece::X0 => 10,
        }
    }

    fn with_code(n: u64) -> (r: Piece)
        requires
            n < N_PIECES,
        ensures
            r == piece_with_code(n as nat),
    {
        if n == 0 {
            Piece::C0
        } else if n == 1 {
            Piece::C1
        } else if n == 2 {
            Piece::C2
        } else if n == 3 {
            Piece::C3
        } else if n == 4 {
            Piece::H0
        } else if n == 5 {
            Piece::S0
        } else if n == 6 {
            Piece::V0
        } else if n == 7 {
            Piece::V1
        } else if n == 8 {
            Piece::V2
        } else {
            Piece::V3
        }
    }
}

/// A direction in which a piece slides.
#[derive(PartialEq, Eq, Structural, Copy, Clone, Hash, Debug)]
pub enum Direction {
    North,
    South,
    West,
    East,
}

/// The code of a direction: North, South, West, East in that order.
pub open spec fn direction_code(d: Direction) -> nat {
    match d {
        Direction::North => 0,
        Direction::South => 1,
        Direction::West => 2,
        Direction::East => 3,
    }
}

/// The direction with code `n`, for `n` below the number of directions.
pub open spec fn direction_with_code(n: nat) -> Direction {
    if n == 0 {
        Direction::North
    } else if n == 1 {
        Direction::South
    } else if n == 2 {
        Direction::West
    } else {
        Direction::East
    }
}

/// The cell one step from `(x, y)` in direction `d`, if it is on the board.
pub open spec fn neighbour(d: Direction, x: int, y: int) -> Option<(int, int)> {
    match d {
        Direction::North => if y > 0 {
            Some((x, y - 1))
        } else {
            None
        },
        Direction::South => if y < HEIGHT - 1 {
            Some((x, y + 1))
        } else {
            None
        },
        Direction::West => if x > 0 {
            Some((x - 1, y))
        } else {
            None
        },
        Direction::East => if x < WIDTH - 1 {
            Some((x + 1, y))
        } else {
            None
        },
    }
}

impl Direction {
    fn with_code(n: u64) -> (r: Direction)
        requires
            n < N_DIRECTIONS,
        ensures
            r == direction_with_code(n as nat),
    {
        if n == 0 {
            Direction::North
        } else if n == 1 {
            Direction::South
        } else if n == 2 {
            Direction::West
        } else {
            Direction::East
        }
    }

    fn code(self) -> (r: u64)
        ensures
            r == direction_code(self),
    {
        match self {
            Direction::North => 0,
            Direction::South => 1,
            Direction::West => 2,
            Direction::East => 3,
        }
    }

    /// The cell one step from `(x, y)` in this direction, if it is on the board.
    pub fn from(self, x: usize, y: usize) -> (r: Option<(usize, usize)>)
        requires
            x < WIDTH,
            y < HEIGHT,
        ensures
            match (r, neighbour(self, x as int, y as int)) {
                (Some((nx, ny)), Some((sx, sy))) => nx == sx && ny == sy,
                (None, None) => true,
                _ => false,
            },
    {
        match self {
            Direction::North => if y > 0 {
                Some((x, y - 1))
            } else {
                None
            },
            Direction::South => if y < HEIGHT - 1 {
                Some((x, y + 1))
            } else {
                None
            },
            Direction::West => if x > 0 {
                Some((x - 1, y))
            } else {
                None
            },
            Direction::East => if x < WIDTH - 1 {
                Some((x + 1, y))
            } else {
                None
            },
        }
    }
}

/// A Klotski move.
#[derive(PartialEq, Eq, Structural, Copy, Clone, Hash, Debug)]
pub struct Move {
    pub piece: Piece,
    pub direction: Direction,
}

/// The index of a move: its piece's code plus ten times its direction's code.
pub open spec fn move_index(m: Move) -> nat {
    piece_code(m.piece) + (N_PIECES as nat) * direction_code(m.direction)
}

/// The move with index `n`, for `n` below the number of moves.
pub open spec fn move_with_index(n: nat) -> Move {
    Move {
        piece: piece_with_code(n % (N_PIECES as nat)),
        direction: direction_with_code(n / (N_PIECES as nat)),
    }
}

/// Indices and moves of real pieces are in one-to-one correspondence.
pub proof fn lemma_move_index_round_trip(m: Move, n: nat)
    requires
        n < N_MOVES,
    ensures
        m.piece != Piece::X0 ==> move_index(m) < N_MOVES && move_with_index(move_index(m)) == m,
        move_index(move_with_index(n)) == n,
        move_with_index(n).piece != Piece::X0,
{
}

impl Move {
    pub fn to_u64(self) -> (r: u64)
        requires
            self.piece != Piece::X0,
        ensures
            r == move_index(self),
            r < N_MOVES,
    {
        self.piece.code() + N_PIECES as u64 * self.direction.code()
    }

    pub fn from_u64(n: u64) -> (r: Self)
        requires
            n < N_MOVES,
        ensures
            r == move_with_index(n as nat),
    {
        Move {
            piece: Piece::with_code(n % N_PIECES as u64),
            direction: Direction::with_code(n / N_PIECES as u64),
        }
    }
}


/// Bit `i` of `bits` is set.
spec fn bit_set(bits: u64, i: u64) -> bool {
    (bits >> i) & 1u64 == 1u64
}

proof fn lemma_bits(bits: u64, i: u64, j: u64)
    requires
        i < 64,
        j < 64,
    ensures
        bit_set(bits | (1u64 << i), j) == (bit_set(bits, j) || i == j),
        (bits & (1u64 << i) == 0u64) == !bit_set(bits, i),
        !bit_set(0u64, j),
{
    assert(((bits | (1u64 << i)) >> j) & 1u64 == 1u64 <==> (((bits >> j) & 1u64 == 1u64) || i
        == j)) by (bit_vector)
        requires
            i < 64,
            j < 64,
    ;
    assert((bits & (1u64 << i) == 0u64) <==> !((bits >> i) & 1u64 == 1u64)) by (bit_vector)
        requires
            i < 64,
    ;
    assert(!((0u64 >> j) & 1u64 == 1u64)) by (bit_vector);
}

// A `MoveSet` is a bitset of moves, where 0 means allowed and 1 means disallowed.
/// A set of Klotski moves, which can be iterated over.
#[derive(PartialEq, Eq, Structural, Copy, Clone, Hash, Debug)]
pub struct MoveSet(u64);

impl MoveSet {
    /// The move with index `i` has been removed from the set.
    pub closed spec fn is_blocked(&self, i: nat) -> bool {
        i < 64 && bit_set(self.0, i as u64)
    }

    /// The moves with an index below `n` that remain in the set, by index.
    pub closed spec fn listed(&self, n: nat) -> Seq<Move>
        decreases n,
    {
        if n == 0 {
            Seq::empty()
        } else if self.is_blocked((n - 1) as nat) {
            self.listed((n - 1) as nat)
        } else {
            self.listed((n - 1) as nat).push(move_with_index((n - 1) as nat))
        }
    }

    /// The set of all moves.
    pub fn new() -> (r: Self)
        ensures
            forall|i: nat| !r.is_blocked(i),
    {
        proof {
            assert forall|i: nat| !MoveSet(0).is_blocked(i) by {
                if i < 64 {
                    lemma_bits(0, 0, i as u64);
                }
            }
        }
        MoveSet(0)
    }

    /// Takes a move out of the set.
    pub fn remove(&mut self, a_move: Move)
        requires
            a_move.piece != Piece::X0,
        ensures
            forall|i: nat|
                #[trigger] final(self).is_blocked(i) == (old(self).is_blocked(i) || i == move_index(
                    a_move,
                )),
    {
        let index = a_move.to_u64();
        proof {
            assert forall|i: nat|
                #[trigger] MoveSet(self.0 | (1u64 << index)).is_blocked(i) == (self.is_blocked(i)
                    || i == move_index(a_move)) by {
                if i < 64 {
                    lemma_bits(self.0, index, i as u64);
                }
            }
        }
        self.0 = self.0 | (1u64 << index);
    }

    /// Whether a move is still in the set.
    pub fn is_allowed(&self, a_move: Move) -> (r: bool)
        requires
            a_move.piece != Piece::X0,
        ensures
            r == !self.is_blocked(move_index(a_move)),
    {
        let index = a_move.to_u64();
        proof {
            lemma_bits(self.0, index, index);
        }
        self.0 & (1u64 << index) == 0
    }

    /// An iterator over the moves of the set, by index.
    pub fn into_iter(self) -> (r: MoveSetIter)
        ensures
            r.set() == self,
            r.position() == 0,
    {
        MoveSetIter { set: self, next: 0 }
    }
}

/// An iterator over a set of Klotski moves.
pub struct MoveSetIter {
    set: MoveSet,
    next: u64,
}

impl MoveSetIter {
    /// The set being walked.
    pub closed spec fn set(&self) -> MoveSet {
        self.set
    }

    /// The index of the next move to consider.
    pub closed spec fn position(&self) -> nat {
        self.next as nat
    }

    /// Returns the next move of the set, by index, if any is left.
    pub fn next(&mut self) -> (r: Option<Move>)
        requires
            old(self).position() <= N_MOVES,
        ensures
            final(self).set() == old(self).set(),
            final(self).position() <= N_MOVES,
            match r {
                Some(m) => {
                    &&& final(self).position() > old(self).position()
                    &&& old(self).set().listed(final(self).position()) == old(self).set().listed(
                        old(self).position(),
                    ).push(m)
                },
                None => {
                    &&& final(self).position() == N_MOVES
                    &&& old(self).set().listed(final(self).position()) == old(self).set().listed(
                        old(self).position(),
                    )
                },
            },
    {
        let ghost start = self.next as nat;
        while self.next < N_MOVES
            invariant
                start == old(self).next,
                start <= self.next <= N_MOVES,
                self.set == old(self).set,
                self.set.listed(self.next as nat) == self.set.listed(start),
            decreases N_MOVES - self.next,
        {
            let the_move = Move::from_u64(self.next);
            proof {
                lemma_move_index_round_trip(the_move, self.next as nat);
            }
            self.next += 1;
            if self.set.is_allowed(the_move) {
                proof {
                    let k = (self.next - 1) as nat;
                    assert(self.set.listed(k + 1) == self.set.listed(k).push(move_with_index(k)));
                }
                return Some(the_move);
            }
        }
        None
    }
}


/// The cell reached from cell `c` by one step in direction `d`, if on the board.
pub open spec fn target_cell(c: int, d: Direction) -> Option<int> {
    match neighbour(d, c % (WIDTH as int), c / (WIDTH as int)) {
        Some((x, y)) => Some(y * WIDTH + x),
        None => None,
    }
}

/// The opposite direction.
pub open spec fn opposite(d: Direction) -> Direction {
    match d {
        Direction::North => Direction::South,
        Direction::South => Direction::North,
        Direction::West => Direction::East,
        Direction::East => Direction::West,
    }
}

/// The cell of `m`'s piece at `c` can slide: the cell it slides onto is on
/// the board and empty or held by the same piece.
pub open spec fn can_slide(board: Seq<Piece>, c: int, m: Move) -> bool {
    match target_cell(c, m.direction) {
        Some(t) => board[t] == Piece::X0 || board[t] == m.piece,
        None => false,
    }
}

/// Every cell of the moved piece can slide in the move's direction.
pub open spec fn is_legal(board: Seq<Piece>, m: Move) -> bool {
    forall|c: int| 0 <= c < N_CELLS && board[c] == m.piece ==> #[trigger] can_slide(board, c, m)
}

/// Some cell below `n` holds the moved piece and cannot slide.
pub open spec fn stuck_below(board: Seq<Piece>, m: Move, n: nat) -> bool
    decreases n,
{
    if n == 0 {
        false
    } else {
        stuck_below(board, m, (n - 1) as nat) || (board[n - 1] == m.piece && !can_slide(
            board,
            n - 1,
            m,
        ))
    }
}

/// The legal moves with an index below `n`, by index.
pub open spec fn legal_below(board: Seq<Piece>, n: nat) -> Seq<Move>
    decreases n,
{
    if n == 0 {
        Seq::empty()
    } else if is_legal(board, move_with_index((n - 1) as nat)) {
        legal_below(board, (n - 1) as nat).push(move_with_index((n - 1) as nat))
    } else {
        legal_below(board, (n - 1) as nat)
    }
}

/// What cell `t` holds after `m`: the moved piece where one of its cells
/// slides in, empty where it slides out, and otherwise as before.
pub open spec fn slid_cell(board: Seq<Piece>, m: Move, t: int) -> Piece {
    match target_cell(t, opposite(m.direction)) {
        Some(c) if board[c] == m.piece => m.piece,
        _ => if board[t] == m.piece {
            Piece::X0
        } else {
            board[t]
        },
    }
}

/// The board after `m`.
pub open spec fn slid_board(board: Seq<Piece>, m: Move) -> Seq<Piece> {
    Seq::new(N_CELLS as nat, |t: int| slid_cell(board, m, t))
}

/// The target piece fills the two-by-two exit at the middle of the bottom.
pub open spec fn is_solved(board: Seq<Piece>) -> bool {
    &&& board[13] == Piece::S0
    &&& board[14] == Piece::S0
    &&& board[17] == Piece::S0
    &&& board[18] == Piece::S0
}

proof fn lemma_stuck_below(board: Seq<Piece>, m: Move, n: nat)
    requires
        n <= N_CELLS,
    ensures
        stuck_below(board, m, n) <==> exists|c: int|
            0 <= c < n && board[c] == m.piece && !#[trigger] can_slide(board, c, m),
    decreases n,
{
    if n > 0 {
        lemma_stuck_below(board, m, (n - 1) as nat);
    }
}

proof fn lemma_listed_legal(board: Seq<Piece>, set: MoveSet, n: nat)
    requires
        n <= N_MOVES,
        forall|i: nat| i < n ==> #[trigger] set.is_blocked(i) == !is_legal(board, move_with_index(i)),
    ensures
        set.listed(n) == legal_below(board, n),
    decreases n,
{
    if n > 0 {
        lemma_listed_legal(board, set, (n - 1) as nat);
        assert(set.is_blocked((n - 1) as nat) == !is_legal(board, move_with_index((n - 1) as nat)));
    }
}

/// The state of the Klotski board, row by row.
#[derive(Debug, Copy, Clone, PartialEq, Eq, PartialOrd, Ord, Hash)]
pub struct Klotski([Piece; N_CELLS]);

impl Klotski {
    /// The cells of the board, row by row.
    pub closed spec fn cells(&self) -> Seq<Piece> {
        self.0@
    }

    /// Returns the initial board.
    pub fn initial() -> (r: Self)
        ensures
            r.cells() == seq![
                Piece::V0, Piece::S0, Piece::S0, Piece::V1,
                Piece::V0, Piece::S0, Piece::S0, Piece::V1,
                Piece::V2, Piece::H0, Piece::H0, Piece::V3,
                Piece::V2, Piece::C0, Piece::C1, Piece::V3,
                Piece::C2, Piece::X0, Piece::X0, Piece::C3,
            ],
    {
        let r = Klotski(
            [
                Piece::V0, Piece::S0, Piece::S0, Piece::V1,
                Piece::V0, Piece::S0, Piece::S0, Piece::V1,
                Piece::V2, Piece::H0, Piece::H0, Piece::V3,
                Piece::V2, Piece::C0, Piece::C1, Piece::V3,
                Piece::C2, Piece::X0, Piece::X0, Piece::C3,
            ],
        );
        proof {
            assert(r.cells() =~= seq![
                Piece::V0, Piece::S0, Piece::S0, Piece::V1,
                Piece::V0, Piece::S0, Piece::S0, Piece::V1,
                Piece::V2, Piece::H0, Piece::H0, Piece::V3,
                Piece::V2, Piece::C0, Piece::C1, Piece::V3,
                Piece::C2, Piece::X0, Piece::X0, Piece::C3,
            ]);
        }
        r
    }
}


impl Puzzle for Klotski {
    type Move = Move;

    open spec fn legal_moves(&self) -> Seq<Move> {
        legal_below(self.cells(), N_MOVES as nat)
    }

    open spec fn successor(&self, a_move: Move) -> Klotski {
        choose|k: Klotski| k.cells() == slid_board(self.cells(), a_move)
    }

    open spec fn winning(&self) -> bool {
        is_solved(self.cells())
    }

    proof fn lemma_clone_equal(a: Klotski, b: Klotski) {
    }

    fn is_final(&self) -> (r: bool) {
        self.0[13] == Piece::S0 && self.0[14] == Piece::S0 && self.0[17] == Piece::S0 && self.0[18]
            == Piece::S0
    }

    fn get_possible_moves(&self) -> (r: Vec<Move>) {
        let ghost board = self.cells();
        let mut result = MoveSet::new();
        let mut c: usize = 0;
        while c < N_CELLS
            invariant
                board == self.cells(),
                c <= N_CELLS,
                forall|i: nat|
                    i < N_MOVES ==> #[trigger] result.is_blocked(i) == stuck_below(
                        board,
                        move_with_index(i),
                        c as nat,
                    ),
            decreases N_CELLS - c,
        {
            let piece = self.0[c];
            let x = c % WIDTH;
            let y = c / WIDTH;
            if piece != Piece::X0 {
                let mut d: u64 = 0;
                while d < N_DIRECTIONS as u64
                    invariant
                        board == self.cells(),
                        c < N_CELLS,
                        x == c % WIDTH,
                        y == c / WIDTH,
                        piece == board[c as int],
                        piece != Piece::X0,
                        d <= N_DIRECTIONS,
                        forall|i: nat|
                            i < N_MOVES ==> #[trigger] result.is_blocked(i) == (stuck_below(
                                board,
                                move_with_index(i),
                                c as nat,
                            ) || (move_with_index(i).piece == piece && direction_code(
                                move_with_index(i).direction,
                            ) < d && !can_slide(board, c as int, move_with_index(i)))),
                    decreases N_DIRECTIONS - d,
                {
                    let direction = Direction::with_code(d);
                    let a_move = Move { piece, direction };
                    let blocked = match direction.from(x, y) {
                        Some((nx, ny)) => {
                            let target = self.0[ny * WIDTH + nx];
                            !(target == Piece::X0 || target == piece)
                        },
                        None => true,
                    };
                    proof {
                        assert(blocked == !can_slide(board, c as int, a_move));
                        lemma_move_index_round_trip(a_move, 0);
                    }
                    if blocked {
                        result.remove(a_move);
                    }
                    proof {
                        assert forall|i: nat| i < N_MOVES implies #[trigger] result.is_blocked(i)
                            == (stuck_below(board, move_with_index(i), c as nat) || (move_with_index(
                            i,
                        ).piece == piece && direction_code(move_with_index(i).direction) < d + 1
                            && !can_slide(board, c as int, move_with_index(i)))) by {
                            lemma_move_index_round_trip(a_move, i);
                            let mi = move_with_index(i);
                            if mi.piece == piece && direction_code(mi.direction) == d {
                                assert(mi == a_move);
                            }
                        }
                    }
                    d += 1;
                }
                proof {
                    assert forall|i: nat| i < N_MOVES implies #[trigger] result.is_blocked(i)
                        == stuck_below(board, move_with_index(i), (c + 1) as nat) by {
                        lemma_move_index_round_trip(move_with_index(i), i);
                    }
                }
            } else {
                proof {
                    assert forall|i: nat| i < N_MOVES implies #[trigger] result.is_blocked(i)
                        == stuck_below(board, move_with_index(i), (c + 1) as nat) by {
                        lemma_move_index_round_trip(move_with_index(i), i);
                    }
                }
            }
            c += 1;
        }
        proof {
            assert forall|i: nat| i < N_MOVES implies #[trigger] result.is_blocked(i) == !is_legal(
                board,
                move_with_index(i),
            ) by {
                lemma_stuck_below(board, move_with_index(i), N_CELLS as nat);
            }
            lemma_listed_legal(board, result, N_MOVES as nat);
        }
        let mut moves = result.into_iter();
        let mut out: Vec<Move> = Vec::new();
        loop
            invariant
                moves.set() == result,
                moves.position() <= N_MOVES,
                out@ == result.listed(moves.position()),
            ensures
                out@ == result.listed(N_MOVES as nat),
            decreases N_MOVES - moves.position(),
        {
            match moves.next() {
                Some(m) => out.push(m),
                None => break,
            }
        }
        out
    }

    fn make_move(&self, a_move: Move) -> (r: Klotski) {
        let ghost board = self.cells();
        let back = match a_move.direction {
            Direction::North => Direction::South,
            Direction::South => Direction::North,
            Direction::West => Direction::East,
            Direction::East => Direction::West,
        };
        let mut cells = [Piece::X0; N_CELLS];
        let mut t: usize = 0;
        while t < N_CELLS
            invariant
                board == self.cells(),
                back == opposite(a_move.direction),
                t <= N_CELLS,
                forall|u: int| 0 <= u < t ==> cells@[u] == #[trigger] slid_cell(board, a_move, u),
            decreases N_CELLS - t,
        {
            let here = self.0[t];
            let slides_in = match back.from(t % WIDTH, t / WIDTH) {
                Some((sx, sy)) => self.0[sy * WIDTH + sx] == a_move.piece,
                None => false,
            };
            let piece = if slides_in {
                a_move.piece
            } else if here == a_move.piece {
                Piece::X0
            } else {
                here
            };
            proof {
                assert(piece == slid_cell(board, a_move, t as int));
            }
            cells.set(t, piece);
            t += 1;
        }
        let r = Klotski(cells);
        proof {
            assert(r.cells() =~= slid_board(board, a_move));
            let k = choose|k: Klotski| k.cells() == slid_board(board, a_move);
            assert(k.0 =~= r.0);
        }
        r
    }
}

} // verus!
