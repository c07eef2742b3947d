//! Search nodes: an arena of parent-linked move records, the legality of
//! whole move sequences, and reconstruction of the move list of a node.

use vstd::prelude::*;
use crate::geometry::Dimensions;
use crate::board::{
    apply_move, board_wf, count_cells, hash_spec, hash_board, legal_move, lemma_count_update,
    starting_board_spec,
};

verus! {

/// One node of the search graph: a reached board, the arena index of the
/// node it was expanded from (`None` for the root), the board's hash, and
/// the (source, destination) cell pair of the generating move.
pub struct Move {
    pub board: Vec<u8>,
    pub parent: Option<usize>,
    pub hash: u64,
    pub b_move: (usize, usize),
}

impl Move {
    /// Pairs a board with its parent link and generating move; the hash is
    /// computed once, on construction.
    pub fn new(b: Vec<u8>, p: Option<usize>, mv: (usize, usize)) -> (m: Move)
        requires
            b@.len() <= 32,
            forall|k: int| 0 <= k < b@.len() ==> b@[k] < 4,
        ensures
            m.board@ == b@,
            m.parent == p,
            m.b_move == mv,
            m.hash as int == hash_spec(b@),
    {
        let bhash = hash_board(&b);
        Move { board: b, parent: p, hash: bhash, b_move: mv }
    }
}

/// Structural soundness of one arena node: a well-formed board whose hash
/// field is its real hash; the root holds the starting board; every other
/// node holds the board of its parent with one legal move applied, and the
/// parent stands earlier in the arena.
pub open spec fn node_inv(dim: Dimensions, arena: Seq<Move>, k: int) -> bool {
    &&& board_wf(dim, arena[k].board@)
    &&& arena[k].hash as int == hash_spec(arena[k].board@)
    &&& match arena[k].parent {
        Option::None => arena[k].board@ == starting_board_spec(dim),
        Option::Some(p) => {
            &&& (p as int) < k
            &&& legal_move(dim, arena[p as int].board@,
                arena[k].b_move.0 as int, arena[k].b_move.1 as int)
            &&& arena[k].board@ == apply_move(arena[p as int].board@,
                arena[k].b_move.0 as int, arena[k].b_move.1 as int)
        },
    }
}

/// Every node of the arena is sound.
pub open spec fn arena_inv(dim: Dimensions, arena: Seq<Move>) -> bool {
    forall|k: int| 0 <= k < arena.len() ==> #[trigger] node_inv(dim, arena, k)
}

/// The move sequence leading from the root to node `k`, read off the parent
/// links.
pub open spec fn node_moves(arena: Seq<Move>, k: int) -> Seq<(usize, usize)>
    decreases k,
{
    if 0 <= k < arena.len() {
        match arena[k].parent {
            Option::None => Seq::empty(),
            Option::Some(p) => if (p as int) < k {
                node_moves(arena, p as int).push(arena[k].b_move)
            } else {
                Seq::empty()
            },
        }
    } else {
        Seq::empty()
    }
}

/// The board reached from `b0` after playing `moves` in order.
pub open spec fn board_after(b0: Seq<u8>, moves: Seq<(usize, usize)>) -> Seq<u8>
    decreases moves.len(),
{
    if moves.len() == 0 {
        b0
    } else {
        apply_move(board_after(b0, moves.drop_last()),
            moves.last().0 as int, moves.last().1 as int)
    }
}

/// Every move of `moves` is legal on the board it is played on, starting
/// from `b0`.
pub open spec fn path_legal(dim: Dimensions, b0: Seq<u8>, moves: Seq<(usize, usize)>) -> bool
    decreases moves.len(),
{
    if moves.len() == 0 {
        true
    } else {
        &&& path_legal(dim, b0, moves.drop_last())
        &&& legal_move(dim, board_after(b0, moves.drop_last()),
            moves.last().0 as int, moves.last().1 as int)
    }
}

/// In a sound arena, the move list of any node is a legal path from the
/// starting board, and replaying it yields exactly that node's board.  A
/// node below the root has a nonempty move list.
pub proof fn lemma_node_path(dim: Dimensions, arena: Seq<Move>, k: int)
    requires
        arena_inv(dim, arena),
        0 <= k < arena.len(),
    ensures
        path_legal(dim, starting_board_spec(dim), node_moves(arena, k)),
        board_after(starting_board_spec(dim), node_moves(arena, k)) == arena[k].board@,
        arena[k].parent is Some ==> node_moves(arena, k).len() >= 1,
        arena[k].parent is None ==> node_moves(arena, k).len() == 0,
    decreases k,
{
    assert(node_inv(dim, arena, k));
    match arena[k].parent {
        Option::None => {
        },
        Option::Some(p) => {
            lemma_node_path(dim, arena, p as int);
            let ms = node_moves(arena, k);
            assert(ms == node_moves(arena, p as int).push(arena[k].b_move));
            assert(ms.drop_last() =~= node_moves(arena, p as int));
            assert(ms.last() == arena[k].b_move);
        },
    }
}

/// A legal move never creates or destroys a piece: it moves one piece onto
/// an empty cell, so the count of either side is unchanged.
pub proof fn lemma_move_preserves_counts(dim: Dimensions, b: Seq<u8>, i: int, j: int, c: u8)
    requires
        legal_move(dim, b, i, j),
        c == 1 || c == 2,
    ensures
        count_cells(apply_move(b, i, j), c) == count_cells(b, c),
{
    lemma_count_update(b, j, b[i], c);
    lemma_count_update(b.update(j, b[i]), i, 0, c);
}

/// Along any legal path the piece counts of both sides stay exactly what
/// they were at the start: under this rule a move never lands on an occupied
/// cell, so no piece is ever captured, and in particular the total piece
/// count never grows.
pub proof fn lemma_path_preserves_counts(
    dim: Dimensions, b0: Seq<u8>, moves: Seq<(usize, usize)>, c: u8)
    requires
        path_legal(dim, b0, moves),
        c == 1 || c == 2,
    ensures
        count_cells(board_after(b0, moves), c) == count_cells(b0, c),
    decreases moves.len(),
{
    if moves.len() > 0 {
        lemma_path_preserves_counts(dim, b0, moves.drop_last(), c);
        lemma_move_preserves_counts(dim, board_after(b0, moves.drop_last()),
            moves.last().0 as int, moves.last().1 as int, c);
    }
}

/// A legal move keeps the board well-formed.
pub proof fn lemma_move_preserves_wf(dim: Dimensions, b: Seq<u8>, i: int, j: int)
    requires
        board_wf(dim, b),
        legal_move(dim, b, i, j),
    ensures
        board_wf(dim, apply_move(b, i, j)),
{
}

/// Parent links only point backward in the arena.
pub open spec fn parent_linked(arena: Seq<Move>) -> bool {
    forall|n: int| 0 <= n < arena.len() ==> match (#[trigger] arena[n]).parent {
        Option::Some(p) => (p as int) < n,
        Option::None => true,
    }
}

/// Walks parent links from node `k` back to the root and returns the move
/// sequence in playing order.
pub fn reconstruct_path(arena: &Vec<Move>, k: usize) -> (path: Vec<(usize, usize)>)
    requires
        (k as int) < arena@.len(),
        parent_linked(arena@),
    ensures
        path@ == node_moves(arena@, k as int),
{
    let mut rev: Vec<(usize, usize)> = Vec::new();
    let mut cur = k;
    loop
        invariant
            (cur as int) < arena@.len(),
            node_moves(arena@, k as int)
                =~= node_moves(arena@, cur as int) + rev@.reverse(),
        decreases cur,
    {
        let ghost old_rev = rev@;
        match arena[cur].parent {
            Option::Some(p) => {
                rev.push(arena[cur].b_move);
                proof {
                    assert(node_moves(arena@, cur as int)
                        == node_moves(arena@, p as int).push(arena@[cur as int].b_move));
                    assert(rev@.reverse()
                        =~= seq![arena@[cur as int].b_move] + old_rev.reverse());
                    assert(node_moves(arena@, p as int)
                        + (seq![arena@[cur as int].b_move] + old_rev.reverse())
                        =~= (node_moves(arena@, p as int).push(arena@[cur as int].b_move))
                            + old_rev.reverse());
                }
                cur = p;
            },
            Option::None => {
                break;
            },
        }
    }
    proof {
        assert(node_moves(arena@, cur as int) =~= Seq::empty());
        assert(node_moves(arena@, k as int) =~= rev@.reverse());
    }
    let mut path: Vec<(usize, usize)> = Vec::new();
    let mut t = rev.len();
    while t > 0
        invariant
            t <= rev@.len(),
            path@.len() == rev@.len() - t,
            forall|u: int| 0 <= u < path@.len()
                ==> #[trigger] path@[u] == rev@[rev@.len() - 1 - u],
        decreases t,
    {
        t = t - 1;
        path.push(rev[t]);
    }
    proof {
        assert(path@ =~= rev@.reverse());
    }
    path
}

/// Extending the arena does not change the move list of an existing node.
pub proof fn lemma_node_moves_stable(a1: Seq<Move>, a2: Seq<Move>, k: int)
    requires
        a1.len() <= a2.len(),
        a2.subrange(0, a1.len() as int) == a1,
        0 <= k < a1.len(),
    ensures
        node_moves(a2, k) == node_moves(a1, k),
    decreases k,
{
    assert(a2.subrange(0, a1.len() as int)[k] == a2[k]);
    assert(a2[k] == a1[k]);
    match a1[k].parent {
        Option::None => {
        },
        Option::Some(p) => {
            if (p as int) < k {
                lemma_node_moves_stable(a1, a2, p as int);
            }
        },
    }
}

/// One more legal move extends a legal path.
pub proof fn lemma_path_push(
    dim: Dimensions, b0: Seq<u8>, moves: Seq<(usize, usize)>, i: usize, j: usize)
    requires
        path_legal(dim, b0, moves),
        legal_move(dim, board_after(b0, moves), i as int, j as int),
    ensures
        path_legal(dim, b0, moves.push((i, j))),
        board_after(b0, moves.push((i, j)))
            == apply_move(board_after(b0, moves), i as int, j as int),
{
    assert(moves.push((i, j)).drop_last() =~= moves);
}

/// Replaying a legal path from a well-formed board keeps the board
/// well-formed.
pub proof fn lemma_path_preserves_board_wf(
    dim: Dimensions, b0: Seq<u8>, moves: Seq<(usize, usize)>)
    requires
        board_wf(dim, b0),
        path_legal(dim, b0, moves),
    ensures
        board_wf(dim, board_after(b0, moves)),
    decreases moves.len(),
{
    if moves.len() > 0 {
        lemma_path_preserves_board_wf(dim, b0, moves.drop_last());
        lemma_move_preserves_wf(dim, board_after(b0, moves.drop_last()),
            moves.last().0 as int, moves.last().1 as int);
    }
}

/// Playing `a` and then `b` is playing their concatenation: legality and the
/// final board decompose at the seam.
pub proof fn lemma_path_concat(
    dim: Dimensions, b0: Seq<u8>, a: Seq<(usize, usize)>, b: Seq<(usize, usize)>)
    ensures
        board_after(b0, a + b) == board_after(board_after(b0, a), b),
        path_legal(dim, b0, a + b)
            <==> (path_legal(dim, b0, a) && path_legal(dim, board_after(b0, a), b)),
    decreases b.len(),
{
    if b.len() == 0 {
        assert(a + b =~= a);
    } else {
        lemma_path_concat(dim, b0, a, b.drop_last());
        assert((a + b).drop_last() =~= a + b.drop_last());
        assert((a + b).last() == b.last());
    }
}

} // verus!
