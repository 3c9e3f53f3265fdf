use vstd::prelude::*;
use vstd::arithmetic::div_mod::lemma_fundamental_div_mod_converse;
use crate::solver::{
    apply_move, board_wf, cell, lemma_goal_flag_kept, lemma_move_keeps_state_ok, lemma_rows_cells,
    lemma_rows_move, lemma_successors, neighbourhood, pos_ok, pos_to_x, pos_to_y, rows_of,
    state_ok, successors, width, Board, BoardPiece, Move, State,
};
use crate::succ_buf::buf_as_slice;

verus! {

/// The goal: the main piece stands on the start cell after it has visited a
/// goal cell.
pub open spec fn is_goal(board: Board, state: State) -> bool {
    state.3 == 1 && cell(board, state.0) == BoardPiece::Start
}

/// The state reached by playing the moves in order, or `None` where one of
/// them does not shift its piece.
pub open spec fn run(board: Board, state: State, moves: Seq<Move>) -> Option<State>
    decreases moves.len(),
{
    if moves.len() == 0 {
        Some(state)
    } else {
        match run(board, state, moves.drop_last()) {
            None => None,
            Some(t) => apply_move(board, t, moves.last()),
        }
    }
}

/// The moves can all be played and end in a goal state.
pub open spec fn solves(board: Board, state: State, moves: Seq<Move>) -> bool {
    run(board, state, moves) is Some && is_goal(board, run(board, state, moves)->0)
}

/// The moves solve the puzzle and no sequence of moves solves it in fewer.
pub open spec fn shortest_solution(board: Board, state: State, moves: Seq<Move>) -> bool {
    &&& solves(board, state, moves)
    &&& forall|ms: Seq<Move>| solves(board, state, ms) ==> moves.len() <= ms.len()
}

/// Two shortest solutions of one puzzle have the same length, so every
/// search that returns a shortest solution reports the same move count.
pub proof fn lemma_shortest_length_unique(board: Board, state: State, a: Seq<Move>, b: Seq<Move>)
    requires
        shortest_solution(board, state, a),
        shortest_solution(board, state, b),
    ensures
        a.len() == b.len(),
{
}

/// Once the goal flag is set, it stays set along every sequence of moves.
pub proof fn lemma_goal_flag_kept_on_run(board: Board, state: State, moves: Seq<Move>)
    requires
        state.3 == 1,
        run(board, state, moves) is Some,
    ensures
        (run(board, state, moves)->0).3 == 1,
    decreases moves.len(),
{
    if moves.len() > 0 {
        lemma_goal_flag_kept_on_run(board, state, moves.drop_last());
        lemma_goal_flag_kept(board, run(board, state, moves.drop_last())->0, moves.last());
    }
}

/// Boards with the same rows have the same solutions.
pub proof fn lemma_rows_solves(b1: Board, b2: Board, state: State, moves: Seq<Move>)
    requires
        rows_of(b1) == rows_of(b2),
        board_wf(b1),
        state_ok(b1, state),
    ensures
        run(b1, state, moves) == run(b2, state, moves),
        run(b1, state, moves) is Some ==> state_ok(b1, run(b1, state, moves)->0),
        solves(b1, state, moves) == solves(b2, state, moves),
    decreases moves.len(),
{
    if moves.len() > 0 {
        lemma_rows_solves(b1, b2, state, moves.drop_last());
        if run(b1, state, moves.drop_last()) is Some {
            let t = run(b1, state, moves.drop_last())->0;
            lemma_rows_move(b1, b2, t, moves.last());
            if apply_move(b1, t, moves.last()) is Some {
                lemma_move_keeps_state_ok(b1, t, moves.last());
            }
        }
    }
    if run(b1, state, moves) is Some {
        let t = run(b1, state, moves)->0;
        lemma_rows_cells(b1, b2);
        assert(state_ok(b1, t));
        assert(cell(b1, t.0) == cell(b2, t.0));
    }
}

/// A node of the search tree, stored in an arena: the move that produced
/// its state (none for the root) and the index of its parent.
struct Node {
    m: Option<Move>,
    state: State,
    prev: usize,
}

impl Node {
    fn new(m: Option<Move>, state: State, prev: usize) -> (r: Self)
        ensures
            r == (Node { m, state, prev }),
    {
        Self { m, state, prev }
    }
}

/// The moves from the root to node `i`, read along the parent links.
spec fn path(nodes: Seq<Node>, i: int) -> Seq<Move>
    decreases i,
{
    if 0 < i < nodes.len() && nodes[i].prev < i {
        path(nodes, nodes[i].prev as int).push(nodes[i].m->0)
    } else {
        Seq::empty()
    }
}

spec fn depth(nodes: Seq<Node>, i: int) -> int {
    path(nodes, i).len() as int
}

/// Parents come before their children and carry a move.
spec fn well_linked(nodes: Seq<Node>) -> bool {
    forall|i: int| 0 < i < nodes.len() ==> (#[trigger] nodes[i]).prev < i && nodes[i].m is Some
}

/// The arena is a search tree rooted at `s0`: each child's state is its
/// parent's state after the child's move.
spec fn linked(board: Board, s0: State, nodes: Seq<Node>) -> bool {
    &&& nodes.len() >= 1
    &&& nodes[0].state == s0
    &&& well_linked(nodes)
    &&& forall|i: int|
        0 < i < nodes.len() ==> apply_move(board, nodes[(#[trigger] nodes[i]).prev as int].state, nodes[i].m->0)
            == Some(nodes[i].state)
    &&& forall|i: int| 0 <= i < nodes.len() ==> state_ok(board, (#[trigger] nodes[i]).state)
}

/// Nodes come in order of depth.
spec fn depth_sorted(nodes: Seq<Node>) -> bool {
    forall|i: int, j: int|
        0 <= i <= j < nodes.len() ==> #[trigger] depth(nodes, i) <= #[trigger] depth(nodes, j)
}

/// No node lies more than one level below node `head`.
spec fn depth_bounded(nodes: Seq<Node>, head: int) -> bool {
    forall|j: int| 0 <= j < nodes.len() ==> #[trigger] depth(nodes, j) <= depth(nodes, head) + 1
}

/// Some node holds state `t` at depth at most `d`.
spec fn in_arena(nodes: Seq<Node>, t: State, d: int) -> bool {
    exists|j: int| 0 <= j < nodes.len() && (#[trigger] nodes[j]).state == t && depth(nodes, j) <= d
}

/// Every successor of a node before `head` is in the arena, at most one level
/// below it.
spec fn expanded_closed(board: Board, nodes: Seq<Node>, head: int) -> bool {
    forall|i: int, m: Move|
        0 <= i < head && (#[trigger] apply_move(board, nodes[i].state, m)) is Some ==> in_arena(
            nodes,
            apply_move(board, nodes[i].state, m)->0,
            depth(nodes, i) + 1,
        )
}

/// No node before `head` holds a goal state.
spec fn expanded_not_goal(board: Board, nodes: Seq<Node>, head: int) -> bool {
    forall|i: int| 0 <= i < head ==> !is_goal(board, (#[trigger] nodes[i]).state)
}

/// No state is held by two nodes.
spec fn distinct(nodes: Seq<Node>) -> bool {
    forall|i: int, j: int|
        0 <= i < j < nodes.len() ==> (#[trigger] nodes[i]).state != (#[trigger] nodes[j]).state
}

/// Bound on every packed position of a board.
spec fn table_side(board: Board) -> int {
    16 * width(board)
}

/// The index of a state in a visited table whose positions lie below `side`.
spec fn key_of(side: int, t: State) -> int {
    ((t.0 * side + t.1) * side + t.2) * 2 + t.3
}

/// The number of `true` entries.
spec fn count_true(s: Seq<bool>) -> nat
    decreases s.len(),
{
    if s.len() == 0 {
        0
    } else {
        count_true(s.drop_last()) + if s.last() {
            1nat
        } else {
            0nat
        }
    }
}

/// The visited table marks exactly the states of the arena.
spec fn table_ok(board: Board, nodes: Seq<Node>, tbl: Seq<bool>) -> bool {
    &&& tbl.len() == 2 * table_side(board) * table_side(board) * table_side(board)
    &&& forall|j: int|
        0 <= j < nodes.len() ==> tbl[key_of(table_side(board), (#[trigger] nodes[j]).state)]
    &&& forall|k: int|
        0 <= k < tbl.len() && #[trigger] tbl[k] ==> exists|j: int|
            0 <= j < nodes.len() && key_of(table_side(board), (#[trigger] nodes[j]).state) == k
    &&& count_true(tbl) == nodes.len()
}

proof fn lemma_count_le(s: Seq<bool>)
    ensures
        count_true(s) <= s.len(),
    decreases s.len(),
{
    if s.len() > 0 {
        lemma_count_le(s.drop_last());
    }
}

proof fn lemma_count_none(s: Seq<bool>)
    requires
        forall|i: int| 0 <= i < s.len() ==> !s[i],
    ensures
        count_true(s) == 0,
    decreases s.len(),
{
    if s.len() > 0 {
        lemma_count_none(s.drop_last());
    }
}

proof fn lemma_count_set(s: Seq<bool>, k: int)
    requires
        0 <= k < s.len(),
        !s[k],
    ensures
        count_true(s.update(k, true)) == count_true(s) + 1,
    decreases s.len(),
{
    let u = s.update(k, true);
    if k == s.len() - 1 {
        assert(u.drop_last() =~= s.drop_last());
    } else {
        assert(u.drop_last() =~= s.drop_last().update(k, true));
        lemma_count_set(s.drop_last(), k);
    }
}

/// A position on the board is below the table's side.
proof fn lemma_pos_below_side(board: Board, pos: u8)
    requires
        board_wf(board),
        pos_ok(board, pos),
    ensures
        pos < table_side(board),
{
}

/// Keys of states on the board fit the table and tell states apart.
proof fn lemma_key(side: int, t: State, u: State)
    requires
        1 <= side <= 256,
        t.0 < side && t.1 < side && t.2 < side && t.3 <= 1,
        u.0 < side && u.1 < side && u.2 < side && u.3 <= 1,
    ensures
        t.0 * side < side * side,
        side * side <= 65536,
        t.0 * side + t.1 < side * side,
        (t.0 * side + t.1) * side + t.2 < side * side * side,
        side * side * side <= 16777216,
        0 <= key_of(side, t) < 2 * side * side * side,
        key_of(side, t) == key_of(side, u) ==> t == u,
{
    assert(t.0 * side + t.1 < side * side) by (nonlinear_arith)
        requires
            t.0 < side,
            t.1 < side,
            0 <= t.1,
            0 <= t.0,
    ;
    assert(u.0 * side + u.1 < side * side) by (nonlinear_arith)
        requires
            u.0 < side,
            u.1 < side,
            0 <= u.1,
            0 <= u.0,
    ;
    let a = t.0 * side + t.1;
    assert(a * side + t.2 < side * side * side) by (nonlinear_arith)
        requires
            0 <= a < side * side,
            0 <= t.2 < side,
    ;
    assert(side * side * side <= 256 * 256 * 256) by (nonlinear_arith)
        requires
            1 <= side <= 256,
    ;
    assert(0 <= a * side + t.2) by (nonlinear_arith)
        requires
            0 <= a,
            0 <= t.2,
            1 <= side,
    ;
    assert(0 <= t.0 * side) by (nonlinear_arith)
        requires
            0 <= t.0,
            1 <= side,
    ;
    assert(side * side <= 65536) by (nonlinear_arith)
        requires
            1 <= side <= 256,
    ;
    assert(key_of(side, t) == (a * side + t.2) * 2 + t.3);
    assert(2 * side * side * side == 2 * (side * side * side)) by (nonlinear_arith);
    if key_of(side, t) == key_of(side, u) {
        let b = u.0 * side + u.1;
        let ta = a * side + t.2;
        let ub = b * side + u.2;
        lemma_fundamental_div_mod_converse(key_of(side, t), 2, ta, t.3 as int);
        lemma_fundamental_div_mod_converse(key_of(side, u), 2, ub, u.3 as int);
        lemma_fundamental_div_mod_converse(ta, side, a, t.2 as int);
        lemma_fundamental_div_mod_converse(ub, side, b, u.2 as int);
        lemma_fundamental_div_mod_converse(a, side, t.0 as int, t.1 as int);
        lemma_fundamental_div_mod_converse(b, side, u.0 as int, u.1 as int);
    }
}

/// The index of a state in the visited table.
fn state_key(side: usize, t: &State) -> (k: usize)
    requires
        1 <= side <= 256,
        t.0 < side && t.1 < side && t.2 < side && t.3 <= 1,
    ensures
        k == key_of(side as int, *t),
        k < 2 * side * side * side,
{
    proof {
        lemma_key(side as int, *t, *t);
    }
    ((t.0 as usize * side + t.1 as usize) * side + t.2 as usize) * 2 + t.3 as usize
}


/// Appending a node leaves the paths of the others alone.
proof fn lemma_path_push(nodes: Seq<Node>, n: Node, i: int)
    requires
        0 <= i < nodes.len(),
    ensures
        path(nodes.push(n), i) == path(nodes, i),
    decreases i,
{
    if 0 < i && nodes[i].prev < i {
        lemma_path_push(nodes, n, nodes[i].prev as int);
    }
}

/// Playing the moves on the path to a node reaches its state.
proof fn lemma_path_run(board: Board, s0: State, nodes: Seq<Node>, i: int)
    requires
        linked(board, s0, nodes),
        0 <= i < nodes.len(),
    ensures
        run(board, s0, path(nodes, i)) == Some(nodes[i].state),
    decreases i,
{
    if i > 0 {
        let p = nodes[i].prev as int;
        assert(nodes[i].prev < i);
        lemma_path_run(board, s0, nodes, p);
        assert(path(nodes, i).drop_last() =~= path(nodes, p));
    }
}

/// A state already marked in the table is in the arena, at most one level
/// below node `head`.
proof fn lemma_seen(board: Board, s0: State, nodes: Seq<Node>, tbl: Seq<bool>, head: int, t: State)
    requires
        board_wf(board),
        linked(board, s0, nodes),
        table_ok(board, nodes, tbl),
        depth_bounded(nodes, head),
        state_ok(board, t),
        0 <= key_of(table_side(board), t) < tbl.len(),
        tbl[key_of(table_side(board), t)],
    ensures
        in_arena(nodes, t, depth(nodes, head) + 1),
{
    let k = key_of(table_side(board), t);
    let j = choose|j: int| 0 <= j < nodes.len() && key_of(table_side(board), (#[trigger] nodes[j]).state) == k;
    let u = nodes[j].state;
    lemma_pos_below_side(board, t.0);
    lemma_pos_below_side(board, t.1);
    lemma_pos_below_side(board, t.2);
    lemma_pos_below_side(board, u.0);
    lemma_pos_below_side(board, u.1);
    lemma_pos_below_side(board, u.2);
    lemma_key(table_side(board), u, t);
    assert(depth(nodes, j) <= depth(nodes, head) + 1);
}

/// Adding a new child of node `head` keeps the arena a sorted search tree
/// whose table marks exactly its states.
proof fn lemma_push(
    board: Board,
    s0: State,
    nodes: Seq<Node>,
    tbl: Seq<bool>,
    head: int,
    m: Move,
    t: State,
)
    requires
        board_wf(board),
        linked(board, s0, nodes),
        depth_sorted(nodes),
        depth_bounded(nodes, head),
        distinct(nodes),
        table_ok(board, nodes, tbl),
        0 <= head < nodes.len(),
        head <= usize::MAX,
        apply_move(board, nodes[head].state, m) == Some(t),
        state_ok(board, t),
        0 <= key_of(table_side(board), t) < tbl.len(),
        !tbl[key_of(table_side(board), t)],
    ensures
        ({
            let nodes2 = nodes.push(Node { m: Some(m), state: t, prev: head as usize });
            let tbl2 = tbl.update(key_of(table_side(board), t), true);
            &&& linked(board, s0, nodes2)
            &&& depth_sorted(nodes2)
            &&& depth_bounded(nodes2, head)
            &&& distinct(nodes2)
            &&& table_ok(board, nodes2, tbl2)
            &&& nodes2.len() <= tbl2.len()
            &&& forall|i: int| 0 <= i < nodes.len() ==> #[trigger] depth(nodes2, i) == depth(nodes, i)
            &&& depth(nodes2, nodes.len() as int) == depth(nodes, head) + 1
            &&& in_arena(nodes2, t, depth(nodes, head) + 1)
            &&& forall|x: State, d: int| #[trigger] in_arena(nodes, x, d) ==> in_arena(nodes2, x, d)
        }),
{
    let n = Node { m: Some(m), state: t, prev: head as usize };
    let nodes2 = nodes.push(n);
    let k = key_of(table_side(board), t);
    let tbl2 = tbl.update(k, true);
    let len = nodes.len() as int;
    assert forall|i: int| 0 <= i < len implies #[trigger] depth(nodes2, i) == depth(nodes, i) by {
        lemma_path_push(nodes, n, i);
    }
    lemma_path_push(nodes, n, head);
    assert(path(nodes2, len) == path(nodes2, head).push(m));
    assert(depth(nodes2, len) == depth(nodes, head) + 1);
    assert(depth_sorted(nodes2)) by {
        assert forall|i: int, j: int| 0 <= i <= j < nodes2.len() implies #[trigger] depth(nodes2, i)
            <= #[trigger] depth(nodes2, j) by {
            if j < len {
                assert(depth(nodes, i) <= depth(nodes, j));
            } else if i < len {
                assert(depth(nodes, i) <= depth(nodes, head) + 1);
            }
        }
    }
    assert(depth_bounded(nodes2, head)) by {
        assert forall|j: int| 0 <= j < nodes2.len() implies #[trigger] depth(nodes2, j) <= depth(
            nodes2,
            head,
        ) + 1 by {
            if j < len {
                assert(depth(nodes, j) <= depth(nodes, head) + 1);
            }
        }
    }
    assert(distinct(nodes2)) by {
        assert forall|i: int, j: int| 0 <= i < j < nodes2.len() implies (#[trigger] nodes2[i]).state
            != (#[trigger] nodes2[j]).state by {
            if j == len {
                assert(tbl[key_of(table_side(board), nodes[i].state)]);
            } else {
                assert(nodes[i].state != nodes[j].state);
            }
        }
    }
    assert(linked(board, s0, nodes2)) by {
        assert forall|i: int| 0 < i < nodes2.len() implies apply_move(
            board,
            nodes2[(#[trigger] nodes2[i]).prev as int].state,
            nodes2[i].m->0,
        ) == Some(nodes2[i].state) by {
            if i < len {
                assert(nodes[i].prev < i);
                assert(apply_move(board, nodes[nodes[i].prev as int].state, nodes[i].m->0) == Some(
                    nodes[i].state,
                ));
            }
        }
        assert forall|i: int| 0 <= i < nodes2.len() implies state_ok(
            board,
            (#[trigger] nodes2[i]).state,
        ) by {
            if i < len {
                assert(state_ok(board, nodes[i].state));
            }
        }
        assert(well_linked(nodes2)) by {
            assert forall|i: int| 0 < i < nodes2.len() implies (#[trigger] nodes2[i]).prev < i
                && nodes2[i].m is Some by {
                if i < len {
                    assert(nodes[i].prev < i && nodes[i].m is Some);
                }
            }
        }
    }
    assert(table_ok(board, nodes2, tbl2)) by {
        assert forall|j: int| 0 <= j < nodes2.len() implies tbl2[key_of(
            table_side(board),
            (#[trigger] nodes2[j]).state,
        )] by {
            if j < len {
                let u = nodes[j].state;
                assert(state_ok(board, u));
                lemma_pos_below_side(board, u.0);
                lemma_pos_below_side(board, u.1);
                lemma_pos_below_side(board, u.2);
                lemma_key(table_side(board), u, u);
                assert(tbl[key_of(table_side(board), u)]);
            }
        }
        assert forall|q: int| 0 <= q < tbl2.len() && #[trigger] tbl2[q] implies exists|j: int|
            0 <= j < nodes2.len() && key_of(table_side(board), (#[trigger] nodes2[j]).state) == q by {
            if q == k {
                assert(nodes2[len].state == t);
            } else {
                assert(tbl[q]);
                let j = choose|j: int|
                    0 <= j < nodes.len() && key_of(table_side(board), (#[trigger] nodes[j]).state) == q;
                assert(nodes2[j] == nodes[j]);
            }
        }
        lemma_count_set(tbl, k);
    }
    lemma_count_le(tbl2);
    assert(nodes2[len].state == t);
    assert forall|x: State, d: int| #[trigger] in_arena(nodes, x, d) implies in_arena(nodes2, x, d) by {
        let j = choose|j: int| 0 <= j < nodes.len() && (#[trigger] nodes[j]).state == x && depth(nodes, j) <= d;
        assert(nodes2[j] == nodes[j]);
        assert(depth(nodes2, j) == depth(nodes, j));
    }
}


/// Within the depth of node `h`, every state that the moves reach is in the
/// arena no deeper than the number of moves.
proof fn lemma_short_reached(board: Board, s0: State, nodes: Seq<Node>, h: int, moves: Seq<Move>)
    requires
        linked(board, s0, nodes),
        depth_sorted(nodes),
        expanded_closed(board, nodes, h),
        0 <= h < nodes.len(),
        moves.len() <= depth(nodes, h),
        run(board, s0, moves) is Some,
    ensures
        in_arena(nodes, run(board, s0, moves)->0, moves.len() as int),
    decreases moves.len(),
{
    if moves.len() == 0 {
        assert(nodes[0].state == s0);
        assert(depth(nodes, 0) == 0);
    } else {
        let before = moves.drop_last();
        lemma_short_reached(board, s0, nodes, h, before);
        let t = run(board, s0, before)->0;
        let j = choose|j: int|
            0 <= j < nodes.len() && (#[trigger] nodes[j]).state == t && depth(nodes, j) <= before.len();
        if j >= h {
            assert(depth(nodes, h) <= depth(nodes, j));
        }
        assert(apply_move(board, nodes[j].state, moves.last()) is Some);
        let u = apply_move(board, nodes[j].state, moves.last())->0;
        assert(in_arena(nodes, u, depth(nodes, j) + 1));
        let k = choose|k: int|
            0 <= k < nodes.len() && (#[trigger] nodes[k]).state == u && depth(nodes, k) <= depth(nodes, j) + 1;
        assert(nodes[k].state == u && depth(nodes, k) <= moves.len());
    }
}

/// When every node is expanded, every state that the moves reach is in the
/// arena.
proof fn lemma_all_reached(board: Board, s0: State, nodes: Seq<Node>, moves: Seq<Move>)
    requires
        linked(board, s0, nodes),
        expanded_closed(board, nodes, nodes.len() as int),
        run(board, s0, moves) is Some,
    ensures
        exists|j: int| 0 <= j < nodes.len() && (#[trigger] nodes[j]).state == run(board, s0, moves)->0,
    decreases moves.len(),
{
    if moves.len() == 0 {
        assert(nodes[0].state == s0);
    } else {
        let before = moves.drop_last();
        lemma_all_reached(board, s0, nodes, before);
        let t = run(board, s0, before)->0;
        let j = choose|j: int| 0 <= j < nodes.len() && (#[trigger] nodes[j]).state == t;
        assert(apply_move(board, nodes[j].state, moves.last()) is Some);
        let u = apply_move(board, nodes[j].state, moves.last())->0;
        assert(in_arena(nodes, u, depth(nodes, j) + 1));
        let k = choose|k: int|
            0 <= k < nodes.len() && (#[trigger] nodes[k]).state == u && depth(nodes, k) <= depth(nodes, j) + 1;
        assert(nodes[k].state == u);
    }
}

/// The reverse of a sequence.
spec fn reversed(s: Seq<Move>) -> Seq<Move> {
    Seq::new(s.len(), |q: int| s[s.len() - 1 - q])
}

// Collects the moves from the root to node 'idx' along the parent links.
fn moves_to(nodes: &Vec<Node>, idx: usize) -> (r: Vec<Move>)
    requires
        idx < nodes.len(),
        well_linked(nodes@),
    ensures
        r@ == path(nodes@, idx as int),
{
    let mut back: Vec<Move> = Vec::new();
    let mut cur: usize = idx;
    while cur > 0
        invariant
            cur < nodes.len(),
            idx < nodes.len(),
            well_linked(nodes@),
            path(nodes@, idx as int) == path(nodes@, cur as int) + reversed(back@),
        decreases cur,
    {
        let node = &nodes[cur];
        assert(nodes@[cur as int].prev < cur && nodes@[cur as int].m is Some);
        let m = node.m.unwrap();
        let ghost old_back = back@;
        back.push(m);
        proof {
            let p = nodes@[cur as int].prev as int;
            assert(path(nodes@, cur as int) == path(nodes@, p).push(m));
            assert(reversed(back@) =~= seq![m] + reversed(old_back));
            assert(path(nodes@, cur as int) + reversed(old_back) =~= path(nodes@, p) + reversed(back@));
        }
        cur = node.prev;
    }
    assert(path(nodes@, 0) == Seq::<Move>::empty());
    assert(path(nodes@, idx as int) =~= reversed(back@));
    let mut moves: Vec<Move> = Vec::new();
    let mut k: usize = back.len();
    while k > 0
        invariant
            k <= back.len(),
            moves@ =~= reversed(back@).subrange(0, back.len() - k),
        decreases k,
    {
        k = k - 1;
        moves.push(back[k]);
    }
    assert(moves@ =~= reversed(back@));
    moves
}

/// Breadth-first search for a shortest solution: a sequence of moves after
/// which the main piece stands on the start cell, having visited a goal cell.
///
/// Returns the board, the final state and the moves, or `None` when no
/// sequence of moves solves the puzzle. Each state enters the search at most
/// once: a visited table marks exactly the states already reached.
pub fn solve_puzzle(board: &Board, state: State) -> (r: Option<(&Board, State, Vec<Move>)>)
    requires
        board_wf(*board),
        state_ok(*board, state),
    ensures
        match r {
            Some(sol) => {
                &&& *sol.0 == *board
                &&& run(*board, state, sol.2@) == Some(sol.1)
                &&& shortest_solution(*board, state, sol.2@)
            },
            None => forall|ms: Seq<Move>| !solves(*board, state, ms),
        },
{
    let side: usize = 16 * board[0].len();
    proof {
        lemma_pos_below_side(*board, state.0);
        lemma_pos_below_side(*board, state.1);
        lemma_pos_below_side(*board, state.2);
        assert(2 * side * side <= 131072 && 2 * side * side * side <= 33554432) by (nonlinear_arith)
            requires
                1 <= side <= 256,
        ;
    }
    let size: usize = 2 * side * side * side;
    let mut visited: Vec<bool> = vec![false; size];
    assert forall|i: int| 0 <= i < visited@.len() implies !visited@[i] by {
        assert(cloned(false, visited@[i]));
    }
    proof {
        lemma_count_none(visited@);
    }
    let k0 = state_key(side, &state);
    let ghost before = visited@;
    visited.set(k0, true);
    let mut nodes: Vec<Node> = Vec::new();
    nodes.push(Node::new(None, state, 0));
    proof {
        lemma_count_set(before, k0 as int);
        assert(depth(nodes@, 0) == 0);
        assert forall|k: int| 0 <= k < visited@.len() && #[trigger] visited@[k] implies exists|j: int|
            0 <= j < nodes@.len() && key_of(table_side(*board), (#[trigger] nodes@[j]).state) == k by {
            assert(k == k0);
            assert(key_of(table_side(*board), nodes@[0].state) == k);
        }
    }
    let mut head: usize = 0;
    while head < nodes.len()
        invariant
            board_wf(*board),
            state_ok(*board, state),
            side == table_side(*board),
            linked(*board, state, nodes@),
            depth_sorted(nodes@),
            head <= nodes.len(),
            head < nodes.len() ==> depth_bounded(nodes@, head as int),
            expanded_closed(*board, nodes@, head as int),
            expanded_not_goal(*board, nodes@, head as int),
            distinct(nodes@),
            table_ok(*board, nodes@, visited@),
            nodes.len() <= visited.len(),
        decreases 2 * (visited.len() - nodes.len()) + (nodes.len() - head),
    {
        let cur = nodes[head].state;
        assert(state_ok(*board, cur));
        if cur.3 == 1 && board[pos_to_y(&cur.0)][pos_to_x(&cur.0)] == BoardPiece::Start {
            let moves = moves_to(&nodes, head);
            proof {
                lemma_path_run(*board, state, nodes@, head as int);
                assert forall|ms: Seq<Move>| solves(*board, state, ms) implies moves@.len() <= ms.len() by {
                    if ms.len() < moves@.len() {
                        lemma_short_reached(*board, state, nodes@, head as int, ms);
                        let j = choose|j: int|
                            0 <= j < nodes@.len() && (#[trigger] nodes@[j]).state == run(*board, state, ms)->0
                                && depth(nodes@, j) <= ms.len();
                        if j >= head {
                            assert(depth(nodes@, head as int) <= depth(nodes@, j));
                        }
                        assert(!is_goal(*board, nodes@[j].state));
                    }
                }
            }
            return Some((board, cur, moves));
        }
        let succ = neighbourhood(board, &cur);
        let items = buf_as_slice(&succ);
        proof {
            lemma_successors(*board, cur);
        }
        let ghost old_len = nodes.len();
        let mut i: usize = 0;
        while i < items.len()
            invariant
                board_wf(*board),
                state_ok(*board, state),
                side == table_side(*board),
                items@ == successors(*board, cur),
                forall|j: int|
                    0 <= j < items@.len() ==> apply_move(*board, cur, (#[trigger] items@[j]).0) == Some(
                        items@[j].1,
                    ),
                head < old_len <= nodes.len(),
                cur == nodes@[head as int].state,
                state_ok(*board, cur),
                !is_goal(*board, cur),
                linked(*board, state, nodes@),
                depth_sorted(nodes@),
                depth_bounded(nodes@, head as int),
                expanded_closed(*board, nodes@, head as int),
                expanded_not_goal(*board, nodes@, head as int),
                distinct(nodes@),
                table_ok(*board, nodes@, visited@),
                nodes.len() <= visited.len(),
                forall|q: int|
                    0 <= q < i ==> in_arena(nodes@, (#[trigger] items@[q]).1, depth(nodes@, head as int) + 1),
            decreases items.len() - i,
        {
            let (m, t) = items[i];
            assert(apply_move(*board, cur, items@[i as int].0) == Some(items@[i as int].1));
            proof {
                lemma_move_keeps_state_ok(*board, cur, m);
                lemma_pos_below_side(*board, t.0);
                lemma_pos_below_side(*board, t.1);
                lemma_pos_below_side(*board, t.2);
            }
            let k = state_key(side, &t);
            if !visited[k] {
                proof {
                    let nodes0 = nodes@;
                    lemma_push(*board, state, nodes0, visited@, head as int, m, t);
                    let nodes2 = nodes0.push(Node { m: Some(m), state: t, prev: head });
                    assert forall|i2: int, m2: Move|
                        0 <= i2 < head && (#[trigger] apply_move(*board, nodes2[i2].state, m2)) is Some implies in_arena(
                        nodes2,
                        apply_move(*board, nodes2[i2].state, m2)->0,
                        depth(nodes2, i2) + 1,
                    ) by {
                        assert(nodes2[i2] == nodes0[i2]);
                        assert(in_arena(nodes0, apply_move(*board, nodes0[i2].state, m2)->0, depth(nodes0, i2) + 1));
                    }
                    assert forall|i2: int| 0 <= i2 < head implies !is_goal(*board, (#[trigger] nodes2[i2]).state) by {
                        assert(nodes2[i2] == nodes0[i2]);
                    }
                    assert forall|q: int| 0 <= q <= i implies in_arena(
                        nodes2,
                        (#[trigger] items@[q]).1,
                        depth(nodes2, head as int) + 1,
                    ) by {
                        if q < i {
                            assert(in_arena(nodes0, items@[q].1, depth(nodes0, head as int) + 1));
                        }
                    }
                }
                visited.set(k, true);
                nodes.push(Node::new(Some(m), t, head));
            } else {
                proof {
                    lemma_seen(*board, state, nodes@, visited@, head as int, t);
                }
            }
            i = i + 1;
        }
        proof {
            let ns = nodes@;
            assert forall|i2: int, m2: Move|
                0 <= i2 < head + 1 && (#[trigger] apply_move(*board, ns[i2].state, m2)) is Some implies in_arena(
                ns,
                apply_move(*board, ns[i2].state, m2)->0,
                depth(ns, i2) + 1,
            ) by {
                if i2 == head {
                    let e = (m2, apply_move(*board, cur, m2)->0);
                    assert(items@.contains(e));
                    let q = choose|q: int| 0 <= q < items@.len() && items@[q] == e;
                    assert(in_arena(ns, items@[q].1, depth(ns, head as int) + 1));
                }
            }
            if head + 1 < ns.len() {
                assert forall|j: int| 0 <= j < ns.len() implies #[trigger] depth(ns, j) <= depth(
                    ns,
                    head + 1,
                ) + 1 by {
                    assert(depth(ns, j) <= depth(ns, head as int) + 1);
                    assert(depth(ns, head as int) <= depth(ns, head + 1));
                }
            }
        }
        head = head + 1;
    }
    proof {
        assert forall|ms: Seq<Move>| !solves(*board, state, ms) by {
            if run(*board, state, ms) is Some {
                lemma_all_reached(*board, state, nodes@, ms);
            }
        }
    }
    None
}

} // verus!
