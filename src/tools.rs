use vstd::prelude::*;
use vstd::string::StringSliceAdditionalSpecFns;
use vstd::utf8::encode_utf8;
use crate::search::{lemma_rows_solves, run, shortest_solution, solve_puzzle, solves};
use crate::solver::{
    board_wf, cell, height, rows_of, state_ok, width, xy_to_pos, Board, BoardPiece, Direction,
    Move, PieceType, Position, State,
};

verus! {

/// The byte `:` that separates the fields of a puzzle line.
pub open spec fn is_separator(c: u8) -> bool {
    c == 58
}

/// The fields of a line: the runs of bytes between separators, empty ones
/// included. A line without separators is one field.
pub open spec fn split_fields(b: Seq<u8>) -> Seq<Seq<u8>>
    decreases b.len(),
{
    if b.len() == 0 {
        seq![Seq::empty()]
    } else {
        let r = split_fields(b.drop_last());
        if is_separator(b.last()) {
            r.push(Seq::empty())
        } else {
            r.update(r.len() - 1, r.last().push(b.last()))
        }
    }
}

/// An ASCII decimal digit.
pub open spec fn is_digit(c: u8) -> bool {
    48 <= c <= 57
}

/// The value of a run of decimal digits.
pub open spec fn digits_value(b: Seq<u8>) -> nat
    decreases b.len(),
{
    if b.len() == 0 {
        0
    } else {
        digits_value(b.drop_last()) * 10 + (b.last() - 48) as nat
    }
}

/// The number that a field writes in decimal digits, if it is one.
pub open spec fn number(b: Seq<u8>) -> Option<nat> {
    if b.len() > 0 && forall|i: int| 0 <= i < b.len() ==> is_digit(#[trigger] b[i]) {
        Some(digits_value(b))
    } else {
        None
    }
}

/// `main_robot`
pub open spec fn main_name() -> Seq<u8> {
    seq![109u8, 97, 105, 110, 95, 114, 111, 98, 111, 116]
}

/// `helper_robot`
pub open spec fn helper_name() -> Seq<u8> {
    seq![104u8, 101, 108, 112, 101, 114, 95, 114, 111, 98, 111, 116]
}

/// `goal`
pub open spec fn goal_name() -> Seq<u8> {
    seq![103u8, 111, 97, 108]
}

/// `blocker`
pub open spec fn blocker_name() -> Seq<u8> {
    seq![98u8, 108, 111, 99, 107, 101, 114]
}

/// The cell named by the two fields after field `j`, where both exist and
/// are numbers inside a board of `w` columns and `h` rows.
pub open spec fn chunk_cell(fs: Seq<Seq<u8>>, j: int, w: nat, h: nat) -> Option<(nat, nat)> {
    if j + 2 < fs.len() && number(fs[j + 1]) is Some && number(fs[j + 2]) is Some && number(
        fs[j + 1],
    )->0 < w && number(fs[j + 2])->0 < h {
        Some((number(fs[j + 1])->0, number(fs[j + 2])->0))
    } else {
        None
    }
}

/// A grid of `h` rows of `w` empty cells.
pub open spec fn empty_grid(w: nat, h: nat) -> Seq<Seq<BoardPiece>> {
    Seq::new(h, |y: int| Seq::new(w, |x: int| BoardPiece::Empty))
}

/// Parse progress: the grid, the state, and whether a helper has been read.
pub type Progress = (Seq<Seq<BoardPiece>>, State, bool);

/// The grid with one cell set.
pub open spec fn set_cell(g: Seq<Seq<BoardPiece>>, x: nat, y: nat, k: BoardPiece) -> Seq<Seq<BoardPiece>> {
    g.update(y as int, g[y as int].update(x as int, k))
}

/// The effect of the chunk of three fields that starts at field `j`. A main
/// piece marks its cell as the start; the first helper read becomes the
/// second helper of the state and the next one the first; goals and
/// blockers mark their cells. Other chunks are skipped. A known chunk whose
/// cell is missing, not a number, or off the board fails the parse.
pub open spec fn apply_chunk(fs: Seq<Seq<u8>>, j: int, acc: Option<Progress>, w: nat, h: nat) -> Option<Progress> {
    match acc {
        None => None,
        Some(p) => {
            let name = fs[j];
            if name == main_name() || name == helper_name() || name == goal_name() || name
                == blocker_name() {
                match chunk_cell(fs, j, w, h) {
                    None => None,
                    Some(c) => {
                        let pos = (16 * c.0 + c.1) as u8;
                        let st = p.1;
                        if name == main_name() {
                            Some((set_cell(p.0, c.0, c.1, BoardPiece::Start), (pos, st.1, st.2, st.3), p.2))
                        } else if name == helper_name() {
                            if p.2 {
                                Some((p.0, (st.0, pos, st.2, st.3), true))
                            } else {
                                Some((p.0, (st.0, st.1, pos, st.3), true))
                            }
                        } else if name == goal_name() {
                            Some((set_cell(p.0, c.0, c.1, BoardPiece::Goal), st, p.2))
                        } else {
                            Some((set_cell(p.0, c.0, c.1, BoardPiece::Blocker), st, p.2))
                        }
                    },
                }
            } else {
                acc
            }
        },
    }
}

/// The effect of the first `c` chunks of three fields.
pub open spec fn apply_chunks(fs: Seq<Seq<u8>>, c: nat, w: nat, h: nat) -> Option<Progress>
    decreases c,
{
    if c == 0 {
        Some((empty_grid(w, h), (0u8, 0u8, 0u8, 0u8), false))
    } else {
        apply_chunk(fs, 3 * (c - 1), apply_chunks(fs, (c - 1) as nat, w, h), w, h)
    }
}

/// The puzzle that a line describes: fields `1` and `2` give the width and
/// the height (each 1 to 16), then every chunk of three fields, the first
/// included, is read in turn.
pub open spec fn parse_puzzle(b: Seq<u8>) -> Option<(Seq<Seq<BoardPiece>>, State)> {
    let fs = split_fields(b);
    if fs.len() >= 3 && number(fs[1]) is Some && number(fs[2]) is Some && 1 <= number(fs[1])->0
        <= 16 && 1 <= number(fs[2])->0 <= 16 {
        match apply_chunks(fs, ((fs.len() + 2) / 3) as nat, number(fs[1])->0, number(fs[2])->0) {
            Some(p) => Some((p.0, p.1)),
            None => None,
        }
    } else {
        None
    }
}

/// The contents of each field.
pub open spec fn views(fields: Seq<Vec<u8>>) -> Seq<Seq<u8>> {
    Seq::new(fields.len(), |i: int| fields[i]@)
}

proof fn lemma_split_nonempty(b: Seq<u8>)
    ensures
        split_fields(b).len() >= 1,
    decreases b.len(),
{
    if b.len() > 0 {
        lemma_split_nonempty(b.drop_last());
    }
}

// Splits a line into its fields at each separator.
fn split_line(bytes: &[u8]) -> (r: Vec<Vec<u8>>)
    ensures
        views(r@) == split_fields(bytes@),
{
    let mut fields: Vec<Vec<u8>> = Vec::new();
    let mut cur: Vec<u8> = Vec::new();
    let mut i: usize = 0;
    assert(bytes@.subrange(0, 0) =~= Seq::<u8>::empty());
    assert(views(fields@).push(cur@) =~= seq![Seq::<u8>::empty()]);
    while i < bytes.len()
        invariant
            i <= bytes.len(),
            views(fields@).push(cur@) == split_fields(bytes@.subrange(0, i as int)),
        decreases bytes.len() - i,
    {
        let c = bytes[i];
        let ghost pre = bytes@.subrange(0, i as int);
        let ghost next = bytes@.subrange(0, i + 1);
        assert(next.drop_last() =~= pre);
        assert(next.last() == c);
        proof {
            lemma_split_nonempty(pre);
        }
        if c == 58u8 {
            let ghost old_fields = fields@;
            fields.push(cur);
            cur = Vec::new();
            assert(views(fields@) =~= views(old_fields).push(fields@.last()@));
            assert(views(fields@).push(cur@) =~= split_fields(pre).push(Seq::empty()));
        } else {
            let ghost old_cur = cur@;
            cur.push(c);
            assert(views(fields@).push(cur@) =~= split_fields(pre).update(
                split_fields(pre).len() - 1,
                split_fields(pre).last().push(c),
            ));
        }
        i = i + 1;
    }
    assert(bytes@.subrange(0, bytes.len() as int) =~= bytes@);
    let ghost before = fields@;
    fields.push(cur);
    assert(views(fields@) =~= views(before).push(cur@));
    fields
}

/// The smaller of a value and 256.
spec fn capped(v: nat) -> nat {
    if v < 256 {
        v
    } else {
        256
    }
}

// Reads a field as a decimal number below 256.
fn parse_number(f: &Vec<u8>) -> (r: Option<usize>)
    ensures
        r is Some <==> number(f@) is Some && number(f@)->0 < 256,
        r is Some ==> r->0 == number(f@)->0,
{
    if f.len() == 0 {
        return None;
    }
    let mut v: usize = 0;
    let mut i: usize = 0;
    assert(f@.subrange(0, 0) =~= Seq::<u8>::empty());
    while i < f.len()
        invariant
            i <= f.len(),
            forall|k: int| 0 <= k < i ==> is_digit(#[trigger] f@[k]),
            v == capped(digits_value(f@.subrange(0, i as int))),
        decreases f.len() - i,
    {
        let c = f[i];
        if c < 48u8 || c > 57u8 {
            return None;
        }
        let ghost pre = f@.subrange(0, i as int);
        assert(f@.subrange(0, i + 1).drop_last() =~= pre);
        let next: usize = v * 10 + (c - 48u8) as usize;
        v = if next < 256 {
            next
        } else {
            256
        };
        i = i + 1;
    }
    assert(f@.subrange(0, f.len() as int) =~= f@);
    if v < 256 {
        Some(v)
    } else {
        None
    }
}

// Tells whether a field holds exactly the given name.
fn field_is(f: &Vec<u8>, name: &[u8]) -> (r: bool)
    ensures
        r == (f@ == name@),
{
    if f.len() != name.len() {
        return false;
    }
    let mut i: usize = 0;
    while i < f.len()
        invariant
            i <= f.len(),
            f.len() == name.len(),
            forall|k: int| 0 <= k < i ==> f@[k] == name@[k],
        decreases f.len() - i,
    {
        if f[i] != name[i] {
            return false;
        }
        i = i + 1;
    }
    assert(f@ =~= name@);
    true
}

// Reads the cell given by the two fields after field 'j'.
fn cell_of_chunk(fields: &Vec<Vec<u8>>, j: usize, w: usize, h: usize) -> (r: Option<(usize, usize)>)
    requires
        w <= 16,
        h <= 16,
    ensures
        r is Some <==> chunk_cell(views(fields@), j as int, w as nat, h as nat) is Some,
        r matches Some(c) ==> chunk_cell(views(fields@), j as int, w as nat, h as nat) == Some(
            (c.0 as nat, c.1 as nat),
        ),
{
    if j >= fields.len() || fields.len() - j <= 2 {
        return None;
    }
    let x = match parse_number(&fields[j + 1]) {
        Some(v) => v,
        None => return None,
    };
    let y = match parse_number(&fields[j + 2]) {
        Some(v) => v,
        None => return None,
    };
    if x >= w || y >= h {
        return None;
    }
    Some((x, y))
}

/// Once a chunk fails, the parse stays failed.
proof fn lemma_chunks_fail(fs: Seq<Seq<u8>>, c: nat, d: nat, w: nat, h: nat)
    requires
        c <= d,
        apply_chunks(fs, c, w, h) is None,
    ensures
        apply_chunks(fs, d, w, h) is None,
    decreases d - c,
{
    if c < d {
        lemma_chunks_fail(fs, c, (d - 1) as nat, w, h);
    }
}

/// A grid of `h` rows of `w` cells.
spec fn grid_dims(g: Seq<Seq<BoardPiece>>, w: nat, h: nat) -> bool {
    g.len() == h && forall|y: int| 0 <= y < h ==> (#[trigger] g[y]).len() == w
}

/// A position inside a grid of `w` columns and `h` rows.
spec fn pos_in(pos: u8, w: nat, h: nat) -> bool {
    pos / 16 < w && pos % 16 < h
}

// Builds a board of 'h' rows of 'w' empty cells.
fn empty_board(w: usize, h: usize) -> (r: Board)
    ensures
        rows_of(r) == empty_grid(w as nat, h as nat),
{
    let mut board: Board = Vec::new();
    let mut y: usize = 0;
    while y < h
        invariant
            y <= h,
            board@.len() == y,
            forall|i: int| 0 <= i < y ==> (#[trigger] board@[i])@ == Seq::new(w as nat, |x: int| BoardPiece::Empty),
        decreases h - y,
    {
        let mut row: Vec<BoardPiece> = Vec::new();
        let mut x: usize = 0;
        while x < w
            invariant
                x <= w,
                row@ =~= Seq::new(x as nat, |i: int| BoardPiece::Empty),
            decreases w - x,
        {
            row.push(BoardPiece::Empty);
            x = x + 1;
        }
        board.push(row);
        y = y + 1;
    }
    assert(rows_of(board) =~= empty_grid(w as nat, h as nat));
    board
}

/// Reads a puzzle line such as `board:8:8:main_robot:0:0:goal:2:4:...`:
/// the width and the height, then chunks of three fields, each a name and
/// a cell. Returns `None` where the line does not describe a puzzle on a
/// board of at most 16 by 16 cells.
pub fn puzzle_from_string(input: &str) -> (r: Option<(Board, State)>)
    ensures
        match r {
            Some(p) => {
                &&& parse_puzzle(input.spec_bytes()) == Some((rows_of(p.0), p.1))
                &&& board_wf(p.0)
                &&& state_ok(p.0, p.1)
            },
            None => parse_puzzle(input.spec_bytes()) is None,
        },
{
    let bytes = input.as_bytes();
    let items = split_line(bytes);
    let ghost fs = views(items@);
    assert(fs == split_fields(input.spec_bytes()));
    if items.len() < 3 {
        return None;
    }
    assert(fs[1] == items@[1]@ && fs[2] == items@[2]@);
    let w = match parse_number(&items[1]) {
        Some(v) => v,
        None => return None,
    };
    let h = match parse_number(&items[2]) {
        Some(v) => v,
        None => return None,
    };
    if w < 1 || w > 16 || h < 1 || h > 16 {
        return None;
    }
    let main_robot: [u8; 10] = [109, 97, 105, 110, 95, 114, 111, 98, 111, 116];
    let helper_robot: [u8; 12] = [104, 101, 108, 112, 101, 114, 95, 114, 111, 98, 111, 116];
    let goal: [u8; 4] = [103, 111, 97, 108];
    let blocker: [u8; 7] = [98, 108, 111, 99, 107, 101, 114];
    let mut board = empty_board(w, h);
    let mut state: State = (0, 0, 0, 0);
    let mut first_helper_found = false;
    let n_chunks: Ghost<nat> = Ghost(((fs.len() + 2) / 3) as nat);
    let mut c: usize = 0;
    while c < items.len() / 3 || (c == items.len() / 3 && items.len() % 3 != 0)
        invariant
            fs == views(items@),
            items.len() >= 3,
            1 <= w <= 16,
            1 <= h <= 16,
            n_chunks@ == (fs.len() + 2) / 3,
            c <= n_chunks@,
            fs == split_fields(input.spec_bytes()),
            number(fs[1]) == Some(w as nat),
            number(fs[2]) == Some(h as nat),
            main_robot@ == main_name(),
            helper_robot@ == helper_name(),
            goal@ == goal_name(),
            blocker@ == blocker_name(),
            grid_dims(rows_of(board), w as nat, h as nat),
            pos_in(state.0, w as nat, h as nat),
            pos_in(state.1, w as nat, h as nat),
            pos_in(state.2, w as nat, h as nat),
            state.3 == 0,
            apply_chunks(fs, c as nat, w as nat, h as nat) == Some(
                (rows_of(board), state, first_helper_found),
            ),
        decreases n_chunks@ - c,
    {
        assert(items.len() == 3 * (items.len() / 3) + items.len() % 3);
        assert(c < n_chunks@);
        let j = 3 * c;
        assert(fs[j as int] == items@[j as int]@);
        let ghost acc = apply_chunks(fs, c as nat, w as nat, h as nat);
        assert(apply_chunks(fs, (c + 1) as nat, w as nat, h as nat) == apply_chunk(
            fs,
            j as int,
            acc,
            w as nat,
            h as nat,
        ));
        let is_main = field_is(&items[j], &main_robot);
        let is_helper = field_is(&items[j], &helper_robot);
        let is_goal = field_is(&items[j], &goal);
        let is_blocker = field_is(&items[j], &blocker);
        if is_main || is_helper || is_goal || is_blocker {
            let (x, y) = match cell_of_chunk(&items, j, w, h) {
                Some(cell) => cell,
                None => {
                    proof {
                        lemma_chunks_fail(fs, (c + 1) as nat, n_chunks@, w as nat, h as nat);
                    }
                    return None;
                },
            };
            let ghost g = rows_of(board);
            let pos = xy_to_pos(x, y);
            if is_main {
                board[y][x] = BoardPiece::Start;
                state = (pos, state.1, state.2, state.3);
                assert(rows_of(board) =~= set_cell(g, x as nat, y as nat, BoardPiece::Start));
            } else if is_helper {
                if first_helper_found {
                    state = (state.0, pos, state.2, state.3);
                } else {
                    first_helper_found = true;
                    state = (state.0, state.1, pos, state.3);
                }
            } else if is_goal {
                board[y][x] = BoardPiece::Goal;
                assert(rows_of(board) =~= set_cell(g, x as nat, y as nat, BoardPiece::Goal));
            } else {
                board[y][x] = BoardPiece::Blocker;
                assert(rows_of(board) =~= set_cell(g, x as nat, y as nat, BoardPiece::Blocker));
            }
            assert(grid_dims(rows_of(board), w as nat, h as nat)) by {
                assert forall|yy: int| 0 <= yy < h implies (#[trigger] rows_of(board)[yy]).len() == w by {
                    assert(g[yy].len() == w);
                }
            }
        }
        c = c + 1;
    }
    assert(items.len() == 3 * (items.len() / 3) + items.len() % 3);
    assert(c == n_chunks@);
    proof {
        let g = rows_of(board);
        assert(board@.len() == h);
        assert(board@[0]@.len() == g[0].len());
        assert forall|y: int| 0 <= y < height(board) implies #[trigger] board@[y]@.len() == width(board) by {
            assert(board@[y]@ == g[y]);
            assert(board@[0]@ == g[0]);
        }
    }
    Some((board, state))
}

/// Reads a puzzle line and solves it. Returns the board, the final state and
/// a shortest solution, or `None` where the line is no puzzle or the puzzle
/// has no solution.
pub fn solve_board(line: String) -> (r: Option<(Board, State, Vec<Move>)>)
    ensures
        match parse_puzzle(encode_utf8(line@)) {
            None => r is None,
            Some(p) => match r {
                Some(sol) => {
                    &&& rows_of(sol.0) == p.0
                    &&& board_wf(sol.0)
                    &&& run(sol.0, p.1, sol.2@) == Some(sol.1)
                    &&& shortest_solution(sol.0, p.1, sol.2@)
                },
                None => forall|b: Board, ms: Seq<Move>| rows_of(b) == p.0 && board_wf(b) ==> !solves(b, p.1, ms),
            },
        },
{
    let (board, state) = match puzzle_from_string(line.as_str()) {
        Some(p) => p,
        None => return None,
    };
    let (state, moves) = match solve_puzzle(&board, state) {
        Some(sol) => (sol.1, sol.2),
        None => {
            proof {
                assert forall|b: Board, ms: Seq<Move>| rows_of(b) == rows_of(board) && board_wf(b) implies !solves(
                    b,
                    state,
                    ms,
                ) by {
                    lemma_rows_solves(board, b, state, ms);
                }
            }
            return None;
        },
    };
    Some((board, state, moves))
}

/// The name under which a piece is printed.
pub fn piece_label(piece: &PieceType) -> (r: &'static str)
    ensures
        *piece == PieceType::Main ==> r@ == "Main"@,
        *piece == PieceType::HelperOne ==> r@ == "Helper1"@,
        *piece == PieceType::HelperTwo ==> r@ == "Helper2"@,
{
    match piece {
        PieceType::Main => "Main",
        PieceType::HelperOne => "Helper1",
        PieceType::HelperTwo => "Helper2",
    }
}

/// The name under which a direction is printed.
pub fn direction_label(dir: &Direction) -> (r: &'static str)
    ensures
        *dir == Direction::Up ==> r@ == "Up"@,
        *dir == Direction::Down ==> r@ == "Down"@,
        *dir == Direction::Left ==> r@ == "Left"@,
        *dir == Direction::Right ==> r@ == "Right"@,
{
    match dir {
        Direction::Up => "Up",
        Direction::Down => "Down",
        Direction::Left => "Left",
        Direction::Right => "Right",
    }
}

/// What a drawing of the board shows at a position: a helper, else the
/// main piece, else the cell itself.
pub open spec fn shown(board: Board, state: State, pos: Position) -> BoardPiece {
    if pos == state.1 || pos == state.2 {
        BoardPiece::BoardHelper
    } else if pos == state.0 {
        BoardPiece::BoardMain
    } else {
        cell(board, pos)
    }
}

/// The board with the pieces of the state drawn on their cells.
pub fn board_with_pieces(board: &Board, state: State) -> (r: Board)
    requires
        board_wf(*board),
    ensures
        r@.len() == board@.len(),
        forall|y: int| 0 <= y < height(*board) ==> (#[trigger] r@[y])@.len() == width(*board),
        forall|x: int, y: int|
            0 <= x < width(*board) && 0 <= y < height(*board) ==> #[trigger] r@[y]@[x] == shown(
                *board,
                state,
                (16 * x + y) as u8,
            ),
{
    let w = board[0].len();
    let mut out: Board = Vec::new();
    let mut y: usize = 0;
    while y < board.len()
        invariant
            board_wf(*board),
            w == width(*board),
            y <= board.len(),
            out@.len() == y,
            forall|yy: int| 0 <= yy < y ==> (#[trigger] out@[yy])@.len() == w,
            forall|x: int, yy: int|
                0 <= x < w && 0 <= yy < y ==> #[trigger] out@[yy]@[x] == shown(
                    *board,
                    state,
                    (16 * x + yy) as u8,
                ),
        decreases board.len() - y,
    {
        assert(board@[y as int]@.len() == w);
        let mut row: Vec<BoardPiece> = Vec::new();
        let mut x: usize = 0;
        while x < w
            invariant
                board_wf(*board),
                w == width(*board),
                y < board.len(),
                board@[y as int]@.len() == w,
                x <= w,
                row@.len() == x,
                forall|xx: int| 0 <= xx < x ==> #[trigger] row@[xx] == shown(
                    *board,
                    state,
                    (16 * xx + y) as u8,
                ),
            decreases w - x,
        {
            let pos = xy_to_pos(x, y);
            let piece = if pos == state.1 || pos == state.2 {
                BoardPiece::BoardHelper
            } else if pos == state.0 {
                BoardPiece::BoardMain
            } else {
                board[y][x]
            };
            row.push(piece);
            x = x + 1;
        }
        let ghost before = out@;
        out.push(row);
        assert forall|x: int, yy: int|
            0 <= x < w && 0 <= yy < y + 1 implies #[trigger] out@[yy]@[x] == shown(
                *board,
                state,
                (16 * x + yy) as u8,
            ) by {
            if yy < y {
                assert(out@[yy] == before[yy]);
            }
        }
        y = y + 1;
    }
    out
}

/// The character that a drawing of the board shows for a cell.
pub fn cell_sign(piece: &BoardPiece) -> (r: char)
    ensures
        r == match *piece {
            BoardPiece::BoardMain => 'M',
            BoardPiece::BoardHelper => 'H',
            BoardPiece::Blocker => '#',
            BoardPiece::Goal => 'o',
            BoardPiece::Empty => ' ',
            BoardPiece::Start => '+',
        },
{
    match piece {
        BoardPiece::BoardMain => 'M',
        BoardPiece::BoardHelper => 'H',
        BoardPiece::Blocker => '#',
        BoardPiece::Goal => 'o',
        BoardPiece::Empty => ' ',
        BoardPiece::Start => '+',
    }
}

} // verus!
