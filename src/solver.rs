use vstd::prelude::*;
use crate::succ_buf::{buf_items, buf_new, buf_push};

verus! {

/// The four directions in which a piece can slide.
#[derive(Debug, Clone, Copy, PartialEq, Eq, Structural)]
pub enum Direction {
    Up,
    Down,
    Left,
    Right,
}

/// The role of a piece: the main piece or one of the two helpers.
#[derive(Debug, Clone, Copy, PartialEq, Eq, Structural)]
pub enum PieceType {
    HelperOne,
    HelperTwo,
    Main,
}

/// The kind of a board cell.
#[derive(Debug, Clone, Copy, PartialEq, Eq, Structural)]
pub enum BoardPiece {
    Start,
    Goal,
    Blocker,
    Empty,
    BoardHelper,
    BoardMain,
}

/// A cell packed into one byte: column in the high nibble, row in the low one.
pub type Position = u8;

/// A move: which piece slides, and where to.
pub type Move = (PieceType, Direction);

/// Positions of the main piece, the first and the second helper, and the
/// goal flag (1 once the main piece has stood on a goal cell, else 0).
pub type State = (Position, Position, Position, u8);

/// The grid of cells, row by row: `board[y][x]`.
pub type Board = Vec<Vec<BoardPiece>>;

/// The column of a packed position.
pub open spec fn px(pos: Position) -> int {
    pos as int / 16
}

/// The row of a packed position.
pub open spec fn py(pos: Position) -> int {
    pos as int % 16
}

/// Column of a packed position.
pub fn pos_to_x(pos: &Position) -> (r: usize)
    ensures
        r == px(*pos),
{
    let p: u8 = *pos;
    assert(p >> 4u8 == p / 16) by (bit_vector);
    (p >> 4u8) as usize
}

/// Row of a packed position.
pub fn pos_to_y(pos: &Position) -> (r: usize)
    ensures
        r == py(*pos),
{
    let p: u8 = *pos;
    assert(p & 0b0000_1111u8 == p % 16) by (bit_vector);
    (p & 0b0000_1111u8) as usize
}

/// Packs a column and a row into one position.
pub fn xy_to_pos(x: usize, y: usize) -> (r: Position)
    requires
        x < 16,
        y < 16,
    ensures
        px(r) == x,
        py(r) == y,
        r == 16 * x + y,
{
    assert((x << 4usize) == 16 * x) by (bit_vector)
        requires
            x < 16,
    ;
    ((x << 4usize) + y) as u8
}


/// Number of rows.
pub open spec fn height(board: Board) -> int {
    board@.len() as int
}

/// Number of columns (the length of the first row).
pub open spec fn width(board: Board) -> int {
    board@[0]@.len() as int
}

/// A board is a non-empty rectangle of at most 16 by 16 cells, so that every
/// cell packs into a position.
pub open spec fn board_wf(board: Board) -> bool {
    &&& 1 <= height(board) <= 16
    &&& 1 <= width(board) <= 16
    &&& forall|y: int| 0 <= y < height(board) ==> #[trigger] board@[y]@.len() == width(board)
}

/// The rows of a board as sequences.
pub open spec fn rows_of(board: Board) -> Seq<Seq<BoardPiece>> {
    Seq::new(board@.len(), |y: int| board@[y]@)
}

/// The position lies on the board.
pub open spec fn pos_ok(board: Board, pos: Position) -> bool {
    px(pos) < width(board) && py(pos) < height(board)
}

/// Every piece lies on the board and the goal flag is 0 or 1.
pub open spec fn state_ok(board: Board, state: State) -> bool {
    &&& pos_ok(board, state.0)
    &&& pos_ok(board, state.1)
    &&& pos_ok(board, state.2)
    &&& state.3 <= 1
}

/// The kind of the cell at a position.
pub open spec fn cell(board: Board, pos: Position) -> BoardPiece {
    board@[py(pos)]@[px(pos)]
}

/// Some piece of the state stands on the position.
pub open spec fn occupied(state: State, pos: Position) -> bool {
    pos == state.0 || pos == state.1 || pos == state.2
}

/// The position one cell away in the given direction, or `None` where that
/// leaves the board.
pub open spec fn neighbour(board: Board, pos: Position, dir: Direction) -> Option<Position> {
    let x = px(pos);
    let y = py(pos);
    match dir {
        Direction::Up => if y == 0 { None } else { Some((16 * x + y - 1) as u8) },
        Direction::Down => if y + 1 >= height(board) { None } else { Some((16 * x + y + 1) as u8) },
        Direction::Left => if x == 0 { None } else { Some((16 * (x - 1) + y) as u8) },
        Direction::Right => if x + 1 >= width(board) { None } else { Some((16 * (x + 1) + y) as u8) },
    }
}

/// One step of a slide: the neighbouring cell, where it is on the board, no
/// blocker and not occupied by a piece.
pub open spec fn step(board: Board, state: State, pos: Position, dir: Direction) -> Option<Position> {
    match neighbour(board, pos, dir) {
        None => None,
        Some(q) => if cell(board, q) == BoardPiece::Blocker || occupied(state, q) {
            None
        } else {
            Some(q)
        },
    }
}

/// How many cells lie between the position and the board's edge in the
/// given direction.
pub open spec fn room(board: Board, pos: Position, dir: Direction) -> nat {
    match dir {
        Direction::Up => py(pos) as nat,
        Direction::Down => (height(board) - 1 - py(pos)) as nat,
        Direction::Left => px(pos) as nat,
        Direction::Right => (width(board) - 1 - px(pos)) as nat,
    }
}

/// Where a piece stops after at most `n` steps from `pos`.
pub open spec fn slide_n(board: Board, state: State, pos: Position, dir: Direction, n: nat) -> Position
    decreases n,
{
    if n == 0 {
        pos
    } else {
        match step(board, state, pos, dir) {
            None => pos,
            Some(q) => slide_n(board, state, q, dir, (n - 1) as nat),
        }
    }
}

/// Where a piece at `pos` stops when it keeps stepping in `dir` until blocked.
pub open spec fn slide(board: Board, state: State, pos: Position, dir: Direction) -> Position {
    slide_n(board, state, pos, dir, room(board, pos, dir))
}

/// Where a piece at `pos` comes to rest when it slides in `dir`, or `None`
/// when its very first step is blocked.
pub open spec fn destination(board: Board, state: State, pos: Position, dir: Direction) -> Option<Position> {
    match step(board, state, pos, dir) {
        None => None,
        Some(q) => Some(slide(board, state, q, dir)),
    }
}

/// The position of a piece in a state.
pub open spec fn piece_pos(state: State, piece: PieceType) -> Position {
    match piece {
        PieceType::Main => state.0,
        PieceType::HelperOne => state.1,
        PieceType::HelperTwo => state.2,
    }
}

/// The state after a move, or `None` where the move does not shift its piece.
/// A main piece that comes to rest on a goal cell sets the goal flag.
#[verifier::opaque]
pub open spec fn apply_move(board: Board, state: State, m: Move) -> Option<State> {
    match destination(board, state, piece_pos(state, m.0), m.1) {
        None => None,
        Some(q) => Some(
            match m.0 {
                PieceType::Main => (
                    q,
                    state.1,
                    state.2,
                    if state.3 == 1 || cell(board, q) == BoardPiece::Goal { 1u8 } else { 0u8 },
                ),
                PieceType::HelperOne => (state.0, q, state.2, state.3),
                PieceType::HelperTwo => (state.0, state.1, q, state.3),
            },
        ),
    }
}

/// A step lands on the board, one cell nearer the edge.
proof fn lemma_step(board: Board, state: State, pos: Position, dir: Direction)
    requires
        board_wf(board),
        pos_ok(board, pos),
        step(board, state, pos, dir) is Some,
    ensures
        pos_ok(board, step(board, state, pos, dir)->0),
        room(board, pos, dir) >= 1,
        room(board, step(board, state, pos, dir)->0, dir) == room(board, pos, dir) - 1,
        !occupied(state, step(board, state, pos, dir)->0),
{
}

/// A slide goes on from a free step and stops at a blocked one.
proof fn lemma_slide_unfold(board: Board, state: State, pos: Position, dir: Direction)
    requires
        board_wf(board),
        pos_ok(board, pos),
    ensures
        step(board, state, pos, dir) is None ==> slide(board, state, pos, dir) == pos,
        step(board, state, pos, dir) is Some ==> slide(board, state, pos, dir) == slide(
            board,
            state,
            step(board, state, pos, dir)->0,
            dir,
        ),
{
    if step(board, state, pos, dir) is Some {
        lemma_step(board, state, pos, dir);
    }
}

/// A slide from a free cell on the board ends on a free cell on the board.
proof fn lemma_slide_n_free(board: Board, state: State, pos: Position, dir: Direction, n: nat)
    requires
        board_wf(board),
        pos_ok(board, pos),
        !occupied(state, pos),
    ensures
        pos_ok(board, slide_n(board, state, pos, dir, n)),
        !occupied(state, slide_n(board, state, pos, dir, n)),
        cell(board, pos) != BoardPiece::Blocker ==> cell(board, slide_n(board, state, pos, dir, n))
            != BoardPiece::Blocker,
    decreases n,
{
    if n > 0 && step(board, state, pos, dir) is Some {
        lemma_step(board, state, pos, dir);
        lemma_slide_n_free(board, state, step(board, state, pos, dir)->0, dir, (n - 1) as nat);
    }
}

/// A piece that moves comes to rest on a free cell of the board.
proof fn lemma_destination(board: Board, state: State, pos: Position, dir: Direction)
    requires
        board_wf(board),
        pos_ok(board, pos),
        destination(board, state, pos, dir) is Some,
    ensures
        pos_ok(board, destination(board, state, pos, dir)->0),
        !occupied(state, destination(board, state, pos, dir)->0),
        cell(board, destination(board, state, pos, dir)->0) != BoardPiece::Blocker,
{
    let q = step(board, state, pos, dir)->0;
    lemma_step(board, state, pos, dir);
    lemma_slide_n_free(board, state, q, dir, room(board, q, dir));
}

/// A move keeps every piece on the board and the goal flag 0 or 1.
pub proof fn lemma_move_keeps_state_ok(board: Board, state: State, m: Move)
    requires
        board_wf(board),
        state_ok(board, state),
        apply_move(board, state, m) is Some,
    ensures
        state_ok(board, apply_move(board, state, m)->0),
{
    reveal(apply_move);
    lemma_destination(board, state, piece_pos(state, m.0), m.1);
}

/// The pieces stand on distinct cells, none of them a blocker.
pub open spec fn pieces_apart(board: Board, state: State) -> bool {
    &&& state.0 != state.1
    &&& state.0 != state.2
    &&& state.1 != state.2
    &&& cell(board, state.0) != BoardPiece::Blocker
    &&& cell(board, state.1) != BoardPiece::Blocker
    &&& cell(board, state.2) != BoardPiece::Blocker
}

/// A move keeps the pieces on distinct cells that hold no blocker.
pub proof fn lemma_move_keeps_pieces_apart(board: Board, state: State, m: Move)
    requires
        board_wf(board),
        state_ok(board, state),
        pieces_apart(board, state),
        apply_move(board, state, m) is Some,
    ensures
        pieces_apart(board, apply_move(board, state, m)->0),
{
    reveal(apply_move);
    lemma_destination(board, state, piece_pos(state, m.0), m.1);
}

/// A move never leaves the state as it was: the moved piece ends on a cell
/// that no piece held before.
pub proof fn lemma_no_self_loop(board: Board, state: State, m: Move)
    requires
        board_wf(board),
        state_ok(board, state),
        apply_move(board, state, m) is Some,
    ensures
        apply_move(board, state, m)->0 != state,
{
    reveal(apply_move);
    lemma_destination(board, state, piece_pos(state, m.0), m.1);
}

/// Once the main piece has visited a goal, every successor keeps the flag.
pub proof fn lemma_goal_flag_kept(board: Board, state: State, m: Move)
    requires
        state.3 == 1,
        apply_move(board, state, m) is Some,
    ensures
        (apply_move(board, state, m)->0).3 == 1,
{
    reveal(apply_move);
}


// Steps from 'pos' in direction 'dir' and returns the new position if the
// cell there is on the board, no blocker, and free of pieces.
fn try_move(pos: &Position, dir: &Direction, board: &Board, state: &State) -> (r: Option<Position>)
    requires
        board_wf(*board),
        pos_ok(*board, *pos),
    ensures
        r == step(*board, *state, *pos, *dir),
{
    let mut x = pos_to_x(pos);
    let mut y = pos_to_y(pos);

    let out_of_bounds = (y == 0 && *dir == Direction::Up) || (x == 0 && *dir == Direction::Left)
        || (y + 1 >= board.len() && *dir == Direction::Down) || (x + 1 >= board[0].len() && *dir
        == Direction::Right);

    if out_of_bounds {
        return None;
    }
    match dir {
        Direction::Up => y = y - 1,
        Direction::Down => y = y + 1,
        Direction::Left => x = x - 1,
        Direction::Right => x = x + 1,
    };

    if board[y][x] == BoardPiece::Blocker {
        return None;
    }
    let pos = xy_to_pos(x, y);

    // Check collision with the pieces.
    if pos == state.0 || pos == state.1 || pos == state.2 {
        return None;
    }
    Some(pos)
}

// Returns where a piece at 'pos' comes to rest sliding in 'dir', if it moves.
fn next_position(board: &Board, state: &State, pos: &Position, dir: &Direction) -> (r: Option<
    Position,
>)
    requires
        board_wf(*board),
        pos_ok(*board, *pos),
    ensures
        r == destination(*board, *state, *pos, *dir),
{
    let mut new_pos = match try_move(pos, dir, board, state) {
        Some(p) => p,
        None => return None,
    };
    proof {
        lemma_step(*board, *state, *pos, *dir);
    }
    loop
        invariant
            board_wf(*board),
            pos_ok(*board, new_pos),
            slide(*board, *state, new_pos, *dir) == slide(
                *board,
                *state,
                step(*board, *state, *pos, *dir)->0,
                *dir,
            ),
            step(*board, *state, *pos, *dir) is Some,
        ensures
            new_pos == slide(*board, *state, step(*board, *state, *pos, *dir)->0, *dir),
        decreases room(*board, new_pos, *dir),
    {
        proof {
            lemma_slide_unfold(*board, *state, new_pos, *dir);
        }
        match try_move(&new_pos, dir, board, state) {
            Some(p) => {
                proof {
                    lemma_step(*board, *state, new_pos, *dir);
                }
                new_pos = p;
            },
            None => break,
        }
    }
    Some(new_pos)
}

/// The state after sliding `piece` in direction `dir`, or `None` where its
/// first step is blocked.
pub fn move_piece(board: &Board, state: &State, piece: &PieceType, dir: &Direction) -> (r: Option<
    State,
>)
    requires
        board_wf(*board),
        state_ok(*board, *state),
    ensures
        r == apply_move(*board, *state, (*piece, *dir)),
{
    proof {
        reveal(apply_move);
    }
    let start_pos = match piece {
        PieceType::Main => state.0,
        PieceType::HelperOne => state.1,
        PieceType::HelperTwo => state.2,
    };
    let pos = match next_position(board, state, &start_pos, dir) {
        Some(p) => p,
        None => return None,
    };
    proof {
        lemma_destination(*board, *state, start_pos, *dir);
    }
    Some(
        match piece {
            PieceType::Main => {
                let goal_found: u8 = if state.3 == 1 || board[pos_to_y(&pos)][pos_to_x(&pos)]
                    == BoardPiece::Goal {
                    1
                } else {
                    0
                };
                (pos, state.1, state.2, goal_found)
            },
            PieceType::HelperOne => (state.0, pos, state.2, state.3),
            PieceType::HelperTwo => (state.0, state.1, pos, state.3),
        },
    )
}


/// The piece moved by the `i`-th of the twelve candidate moves: pieces in the
/// order main, first helper, second helper.
pub open spec fn piece_at(i: int) -> PieceType {
    if i < 4 {
        PieceType::Main
    } else if i < 8 {
        PieceType::HelperOne
    } else {
        PieceType::HelperTwo
    }
}

/// The direction of the `i`-th candidate move: left, right, up, down for
/// each piece.
pub open spec fn dir_at(i: int) -> Direction {
    if i % 4 == 0 {
        Direction::Left
    } else if i % 4 == 1 {
        Direction::Right
    } else if i % 4 == 2 {
        Direction::Up
    } else {
        Direction::Down
    }
}

/// The `i`-th of the twelve candidate moves.
pub open spec fn move_at(i: int) -> Move {
    (piece_at(i), dir_at(i))
}

/// The moves among the first `k` candidates that shift their piece, each with
/// the state it leads to, in candidate order.
pub open spec fn successors_upto(board: Board, state: State, k: nat) -> Seq<(Move, State)>
    decreases k,
{
    if k == 0 {
        Seq::empty()
    } else {
        let before = successors_upto(board, state, (k - 1) as nat);
        match apply_move(board, state, move_at(k - 1)) {
            None => before,
            Some(t) => before.push((move_at(k - 1), t)),
        }
    }
}

/// Every move that shifts a piece, with the state it leads to, in the fixed
/// order: pieces main, first helper, second helper; for each, directions
/// left, right, up, down.
pub open spec fn successors(board: Board, state: State) -> Seq<(Move, State)> {
    successors_upto(board, state, 12)
}

/// At most one entry per candidate.
proof fn lemma_successors_len(board: Board, state: State, k: nat)
    ensures
        successors_upto(board, state, k).len() <= k,
    decreases k,
{
    if k > 0 {
        lemma_successors_len(board, state, (k - 1) as nat);
    }
}

/// Every candidate up to `k` that applies is listed, and every listed entry
/// is a move that applies.
proof fn lemma_successors_upto(board: Board, state: State, k: nat)
    ensures
        successors_upto(board, state, k).len() <= k,
        forall|j: int|
            0 <= j < successors_upto(board, state, k).len() ==> apply_move(
                board,
                state,
                (#[trigger] successors_upto(board, state, k)[j]).0,
            ) == Some(successors_upto(board, state, k)[j].1),
        forall|i: int|
            0 <= i < k && (#[trigger] apply_move(board, state, move_at(i))) is Some ==> successors_upto(
                board,
                state,
                k,
            ).contains((move_at(i), apply_move(board, state, move_at(i))->0)),
    decreases k,
{
    if k > 0 {
        lemma_successors_upto(board, state, (k - 1) as nat);
        let before = successors_upto(board, state, (k - 1) as nat);
        let now = successors_upto(board, state, k);
        assert forall|i: int|
            0 <= i < k && (#[trigger] apply_move(board, state, move_at(i))) is Some implies now.contains(
                (move_at(i), apply_move(board, state, move_at(i))->0),
            ) by {
            if i < k - 1 {
                let e = (move_at(i), apply_move(board, state, move_at(i))->0);
                let j = choose|j: int| 0 <= j < before.len() && before[j] == e;
                assert(now[j] == e);
            } else {
                assert(now[now.len() - 1] == (move_at(i), apply_move(board, state, move_at(i))->0));
            }
        }
    }
}

/// Every move is one of the twelve candidates.
proof fn lemma_move_index(m: Move) -> (i: int)
    ensures
        0 <= i < 12,
        move_at(i) == m,
{
    let p: int = match m.0 {
        PieceType::Main => 0,
        PieceType::HelperOne => 4,
        PieceType::HelperTwo => 8,
    };
    let d: int = match m.1 {
        Direction::Left => 0,
        Direction::Right => 1,
        Direction::Up => 2,
        Direction::Down => 3,
    };
    p + d
}

/// The successor list holds exactly the moves that shift a piece, each with
/// its resulting state.
pub proof fn lemma_successors(board: Board, state: State)
    ensures
        successors(board, state).len() <= 12,
        forall|j: int|
            0 <= j < successors(board, state).len() ==> apply_move(
                board,
                state,
                (#[trigger] successors(board, state)[j]).0,
            ) == Some(successors(board, state)[j].1),
        forall|m: Move|
            (#[trigger] apply_move(board, state, m)) is Some ==> successors(board, state).contains(
                (m, apply_move(board, state, m)->0),
            ),
{
    lemma_successors_upto(board, state, 12);
    assert forall|m: Move| (#[trigger] apply_move(board, state, m)) is Some implies successors(
        board,
        state,
    ).contains((m, apply_move(board, state, m)->0)) by {
        let i = lemma_move_index(m);
    }
}

/// Every state one move away, with the move that leads there, in the fixed
/// order of `successors`.
pub fn neighbourhood(board: &Board, state: &State) -> (r: heapless::Vec<(Move, State), 12>)
    requires
        board_wf(*board),
        state_ok(*board, *state),
    ensures
        buf_items(r) == successors(*board, *state),
{
    // A fixed-capacity buffer: a state has at most twelve successors.
    let mut states = buf_new();
    let pieces = [PieceType::Main, PieceType::HelperOne, PieceType::HelperTwo];
    let directions = [Direction::Left, Direction::Right, Direction::Up, Direction::Down];
    let mut pi: usize = 0;
    while pi < 3
        invariant
            board_wf(*board),
            state_ok(*board, *state),
            pi <= 3,
            pieces@ == seq![PieceType::Main, PieceType::HelperOne, PieceType::HelperTwo],
            directions@ == seq![Direction::Left, Direction::Right, Direction::Up, Direction::Down],
            buf_items(states) == successors_upto(*board, *state, (4 * pi) as nat),
        decreases 3 - pi,
    {
        let piece = pieces[pi];
        let mut di: usize = 0;
        while di < 4
            invariant
                board_wf(*board),
                state_ok(*board, *state),
                pi < 3,
                di <= 4,
                piece == piece_at(4 * pi as int),
                directions@ == seq![Direction::Left, Direction::Right, Direction::Up, Direction::Down],
                buf_items(states) == successors_upto(*board, *state, (4 * pi + di) as nat),
            decreases 4 - di,
        {
            let direction = directions[di];
            proof {
                let k: int = 4 * pi + di;
                assert(k % 4 == di as int);
                assert(piece_at(k) == piece_at(4 * pi as int));
                lemma_successors_len(*board, *state, k as nat);
            }
            match move_piece(board, state, &piece, &direction) {
                Some(next) => {
                    let pushed = buf_push(&mut states, ((piece, direction), next));
                },
                None => {},
            }
            di = di + 1;
        }
        pi = pi + 1;
    }
    states
}


/// Boards with the same rows have the same shape and cells.
pub proof fn lemma_rows_cells(b1: Board, b2: Board)
    requires
        rows_of(b1) == rows_of(b2),
        board_wf(b1),
    ensures
        board_wf(b2),
        height(b1) == height(b2),
        width(b1) == width(b2),
        forall|pos: Position| pos_ok(b1, pos) ==> #[trigger] cell(b1, pos) == cell(b2, pos),
{
    assert(b1@.len() == rows_of(b1).len());
    assert(rows_of(b1)[0] == b1@[0]@ && rows_of(b2)[0] == b2@[0]@);
    assert forall|y: int| 0 <= y < height(b2) implies #[trigger] b2@[y]@.len() == width(b2) by {
        assert(rows_of(b1)[y] == b1@[y]@ && rows_of(b2)[y] == b2@[y]@);
    }
    assert forall|pos: Position| pos_ok(b1, pos) implies #[trigger] cell(b1, pos) == cell(b2, pos) by {
        assert(rows_of(b1)[py(pos)] == b1@[py(pos)]@ && rows_of(b2)[py(pos)] == b2@[py(pos)]@);
    }
}

/// Boards with the same rows give every slide the same course.
proof fn lemma_rows_slide_n(b1: Board, b2: Board, state: State, pos: Position, dir: Direction, n: nat)
    requires
        rows_of(b1) == rows_of(b2),
        board_wf(b1),
        pos_ok(b1, pos),
    ensures
        slide_n(b1, state, pos, dir, n) == slide_n(b2, state, pos, dir, n),
        step(b1, state, pos, dir) == step(b2, state, pos, dir),
    decreases n,
{
    lemma_rows_cells(b1, b2);
    if let Some(q) = neighbour(b1, pos, dir) {
        assert(pos_ok(b1, q));
        assert(cell(b1, q) == cell(b2, q));
    }
    if n > 0 && step(b1, state, pos, dir) is Some {
        lemma_step(b1, state, pos, dir);
        lemma_rows_slide_n(b1, b2, state, step(b1, state, pos, dir)->0, dir, (n - 1) as nat);
    }
}

/// Boards with the same rows give every move the same effect.
pub proof fn lemma_rows_move(b1: Board, b2: Board, state: State, m: Move)
    requires
        rows_of(b1) == rows_of(b2),
        board_wf(b1),
        state_ok(b1, state),
    ensures
        apply_move(b1, state, m) == apply_move(b2, state, m),
{
    reveal(apply_move);
    lemma_rows_cells(b1, b2);
    let pos = piece_pos(state, m.0);
    lemma_rows_slide_n(b1, b2, state, pos, m.1, 0);
    if step(b1, state, pos, m.1) is Some {
        let q = step(b1, state, pos, m.1)->0;
        lemma_step(b1, state, pos, m.1);
        lemma_rows_slide_n(b1, b2, state, q, m.1, room(b1, q, m.1));
        lemma_destination(b1, state, pos, m.1);
        let d = destination(b1, state, pos, m.1)->0;
        assert(cell(b1, d) == cell(b2, d));
    }
}

} // verus!
