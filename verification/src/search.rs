//! The search driver: the game state with its visited set, frontier
//! expansion under the move rule, and the breadth-first solver.

use vstd::prelude::*;
use std::collections::HashSet;
use crate::geometry::{
    Dimensions, diag_related, ray_cell, ray_len, ray_step, unit_delta, lemma_ray,
    lemma_cell_coords, lemma_valid_dims_small, bishop_for_each,
};
use crate::board::{
    apply_move, attacks, attacked_spaces, board_wf, copy_board, flip_cell, hash_spec,
    legal_move, lemma_hash_distinct, lemma_hash_injective, lemma_winning_is_flipped_start,
    overlay_ok, starting_board, starting_board_spec, winning_board, winning_board_spec,
};
use crate::node::{
    Move, arena_inv, board_after, lemma_node_path, node_inv, node_moves, path_legal,
    reconstruct_path,
};

verus! {

broadcast use vstd::std_specs::hash::group_hash_axioms;

/// The board dimensions were rejected before any search began: the solver
/// needs at least one row, at least two columns, and at most 32 cells (so
/// that the 64-bit board hash stays injective).
#[derive(Debug, PartialEq, Eq, Structural)]
pub enum ConfigError {
    InvalidDimensions,
}

/// How a finished search ended: a shortest move sequence from the starting
/// board to the winning board, or exhaustion of the reachable state space.
pub enum SearchOutcome {
    Solved(Vec<(usize, usize)>),
    Exhausted,
}

/// The search state: the set of board hashes seen so far and the fixed board
/// dimensions.
pub struct Game {
    pub seen: HashSet<u64>,
    pub dimensions: Dimensions,
}

/// One expansion round grew arena, visited set and result list consistently:
/// the old arena is a prefix; every appended node was made from node `m` by
/// one legal move, carries the successor board and its hash, and its hash
/// was new to the visited set; the result list lists exactly the appended
/// indices; and the visited set grew by exactly the appended hashes.
pub open spec fn expansion_ok(
    dim: Dimensions,
    m: int,
    a0: Seq<Move>,
    a1: Seq<Move>,
    s0: Set<u64>,
    s1: Set<u64>,
    r0: Seq<usize>,
    r1: Seq<usize>,
) -> bool {
    &&& 0 <= m < a0.len()
    &&& a0.len() <= a1.len()
    &&& a1.subrange(0, a0.len() as int) == a0
    &&& r1.len() == r0.len() + (a1.len() - a0.len())
    &&& r1.subrange(0, r0.len() as int) == r0
    &&& forall|t: int| r0.len() <= t < r1.len()
        ==> (#[trigger] r1[t]) as int == a0.len() + (t - r0.len())
    &&& forall|k: int| a0.len() <= k < a1.len() ==> {
        &&& (#[trigger] a1[k]).parent == Some(m as usize)
        &&& legal_move(dim, a0[m].board@, a1[k].b_move.0 as int, a1[k].b_move.1 as int)
        &&& a1[k].board@ == apply_move(a0[m].board@, a1[k].b_move.0 as int,
            a1[k].b_move.1 as int)
        &&& !s0.contains(a1[k].hash)
        &&& s1.contains(a1[k].hash)
    }
    &&& forall|k1: int, k2: int| a0.len() <= k1 < k2 < a1.len()
        ==> (#[trigger] a1[k1]).hash != (#[trigger] a1[k2]).hash
    &&& s0.subset_of(s1)
    &&& forall|h: u64| s1.contains(h) ==> s0.contains(h)
        || exists|k: int| a0.len() <= k < a1.len() && (#[trigger] a1[k]).hash == h
}

/// Two consecutive expansion rounds around the same node compose.
pub proof fn lemma_expansion_trans(
    dim: Dimensions,
    m: int,
    a0: Seq<Move>,
    a1: Seq<Move>,
    a2: Seq<Move>,
    s0: Set<u64>,
    s1: Set<u64>,
    s2: Set<u64>,
    r0: Seq<usize>,
    r1: Seq<usize>,
    r2: Seq<usize>,
)
    requires
        expansion_ok(dim, m, a0, a1, s0, s1, r0, r1),
        expansion_ok(dim, m, a1, a2, s1, s2, r1, r2),
    ensures
        expansion_ok(dim, m, a0, a2, s0, s2, r0, r2),
{
    assert(a2.subrange(0, a0.len() as int)
        =~= a2.subrange(0, a1.len() as int).subrange(0, a0.len() as int));
    assert(r2.subrange(0, r0.len() as int)
        =~= r2.subrange(0, r1.len() as int).subrange(0, r0.len() as int));
    assert(a1[m] == a0[m]);
    assert forall|k: int| a0.len() <= k < a2.len() implies {
        &&& (#[trigger] a2[k]).parent == Some(m as usize)
        &&& legal_move(dim, a0[m].board@, a2[k].b_move.0 as int, a2[k].b_move.1 as int)
        &&& a2[k].board@ == apply_move(a0[m].board@, a2[k].b_move.0 as int,
            a2[k].b_move.1 as int)
        &&& !s0.contains(a2[k].hash)
        &&& s2.contains(a2[k].hash)
    } by {
        if k < a1.len() {
            assert(a2.subrange(0, a1.len() as int)[k] == a2[k]);
            assert(a2[k] == a1[k]);
        }
    }
    assert forall|t: int| r0.len() <= t < r2.len()
        implies (#[trigger] r2[t]) as int == a0.len() + (t - r0.len()) by {
        if t < r1.len() {
            assert(r2.subrange(0, r1.len() as int)[t] == r2[t]);
            assert(r2[t] == r1[t]);
        }
    }
    assert forall|k1: int, k2: int| a0.len() <= k1 < k2 < a2.len()
        implies (#[trigger] a2[k1]).hash != (#[trigger] a2[k2]).hash by {
        if k1 < a1.len() {
            assert(a2.subrange(0, a1.len() as int)[k1] == a2[k1]);
            assert(a2[k1] == a1[k1]);
            if k2 < a1.len() {
                assert(a2.subrange(0, a1.len() as int)[k2] == a2[k2]);
                assert(a2[k2] == a1[k2]);
            } else {
                assert(s1.contains(a1[k1].hash));
                assert(!s1.contains(a2[k2].hash));
            }
        }
    }
    assert forall|h: u64| s2.contains(h) && !s0.contains(h)
        implies exists|k: int| a0.len() <= k < a2.len() && (#[trigger] a2[k]).hash == h by {
        if s1.contains(h) {
            let k = choose|k: int| a0.len() <= k < a1.len() && (#[trigger] a1[k]).hash == h;
            assert(a2.subrange(0, a1.len() as int)[k] == a2[k]);
            assert(a2[k] == a1[k]);
            assert(a0.len() <= k < a2.len() && a2[k].hash == h);
        } else {
            let k = choose|k: int| a1.len() <= k < a2.len() && (#[trigger] a2[k]).hash == h;
            assert(a0.len() <= k < a2.len() && a2[k].hash == h);
        }
    }
}

/// Decides the full move rule for moving the piece on `i` to `j`, given the
/// precomputed attack overlay of `b`.
#[verifier::rlimit(60)]
pub fn move_allowed(dim: &Dimensions, b: &Vec<u8>, overlay: &Vec<u8>, i: usize, j: usize)
    -> (r: bool)
    requires
        dim.valid(),
        board_wf(*dim, b@),
        overlay_ok(*dim, b@, overlay@),
        (i as int) < b@.len(),
        (j as int) < b@.len(),
        b@[i as int] == 1 || b@[i as int] == 2,
        diag_related(dim.cols as int, i as int, j as int),
    ensures
        r == legal_move(*dim, b@, i as int, j as int),
{
    let ghost icols = dim.cols as int;
    let p = b[i];
    let q = 3 - p;
    proof {
        assert(flip_cell(b@[i as int]) == q);
    }
    if overlay[j] & q != 0 {
        proof {
            if b@[j as int] != q && !attacks(*dim, b@, q, j as int) {
                assert(false);
            }
        }
        return false;
    }
    proof {
        assert(!attacks(*dim, b@, q, j as int));
        lemma_valid_dims_small(*dim);
        lemma_ray(icols, dim.rows as int, j as int, i as int);
        lemma_cell_coords(icols, dim.rows as int, i as int);
        lemma_cell_coords(icols, dim.rows as int, j as int);
    }
    let cols = dim.cols;
    let ri = i / cols;
    let rj = j / cols;
    let ci = i % cols;
    let cj = j % cols;
    let steps = if ri >= rj { ri - rj } else { rj - ri };
    let stride = if cj + ri == ci + rj { cols + 1 } else { cols - 1 };
    let ghost lray = ray_len(icols, j as int, i as int);
    proof {
        assert(steps as int == lray);
        assert(stride as int == ray_step(icols, j as int, i as int));
    }
    let mut t: usize = 0;
    let mut x = j;
    while t < steps
        invariant
            t <= steps,
            x as int == ray_cell(icols, j as int, i as int, t as int),
            (x as int) < b@.len(),
            forall|u: int| 0 <= u < t
                ==> b@[#[trigger] ray_cell(icols, j as int, i as int, u)] == 0,
        decreases steps - t,
    {
        if b[x] != 0 {
            proof {
                if t == 0 {
                    assert(b@[j as int] != 0);
                } else {
                    assert(b@[ray_cell(icols, j as int, i as int, t as int)] != 0);
                }
            }
            return false;
        }
        proof {
            assert((t + 1) * unit_delta(icols, j as int, i as int)
                == t * unit_delta(icols, j as int, i as int)
                    + unit_delta(icols, j as int, i as int)) by (nonlinear_arith);
            assert(0 <= ray_cell(icols, j as int, i as int, t + 1) < b@.len());
        }
        if i > j {
            x = x + stride;
        } else {
            x = x - stride;
        }
        t = t + 1;
    }
    proof {
        assert(b@[ray_cell(icols, j as int, i as int, 0)] == 0);
        assert(ray_cell(icols, j as int, i as int, 0) == j as int);
        assert(legal_move(*dim, b@, i as int, j as int));
    }
    true
}

impl Game {
    /// The game's structural invariant: its dimensions are valid.
    pub open spec fn wf(self) -> bool {
        self.dimensions.valid()
    }

    /// Accepts the dimensions or rejects them before any search state is
    /// built: at least one row, at least two columns, at most 32 cells.
    pub fn new(rows: usize, cols: usize) -> (r: Result<Game, ConfigError>)
        ensures
            r is Ok <==> (Dimensions { rows, cols }).valid(),
            r matches Ok(g) ==> g.wf() && g.dimensions == (Dimensions { rows, cols })
                && g.seen@ == Set::<u64>::empty(),
    {
        if rows >= 1 && cols >= 2 && rows <= 32 && cols <= 32 {
            proof {
                assert(rows * cols <= 32 * 32) by (nonlinear_arith)
                    requires rows <= 32, cols <= 32;
            }
            if rows * cols <= 32 {
                return Ok(Game { seen: HashSet::new(), dimensions: Dimensions { rows, cols } });
            }
        }
        {
            proof {
                if rows > 32 && cols >= 2 {
                    assert(rows * cols > 32) by (nonlinear_arith)
                        requires rows > 32, cols >= 2;
                }
                if cols > 32 && rows >= 1 {
                    assert(rows * cols > 32) by (nonlinear_arith)
                        requires cols > 32, rows >= 1;
                }
            }
            Err(ConfigError::InvalidDimensions)
        }
    }


    /// Builds the root node: the starting board, no parent, and a dummy
    /// (0, 0) move label; seeds the visited set with its hash.
    pub fn starting_move(&mut self) -> (m: Move)
        requires
            old(self).wf(),
        ensures
            final(self).wf(),
            final(self).dimensions == old(self).dimensions,
            m.board@ == starting_board_spec(old(self).dimensions),
            m.parent is None,
            m.b_move == (0usize, 0usize),
            m.hash as int == hash_spec(starting_board_spec(old(self).dimensions)),
            final(self).seen@ == old(self).seen@.insert(m.hash),
    {
        let b = starting_board(&self.dimensions);
        proof {
            lemma_valid_dims_small(self.dimensions);
        }
        let m = Move::new(b, None, (0, 0));
        self.seen.insert(m.hash);
        m
    }

    /// The hash every search compares against: the hash of the side-swapped
    /// starting board.
    pub fn winning_hash(&self) -> (h: u64)
        requires
            self.wf(),
        ensures
            h as int == hash_spec(winning_board_spec(self.dimensions)),
    {
        let wb = winning_board(&self.dimensions);
        proof {
            lemma_valid_dims_small(self.dimensions);
        }
        crate::board::hash_board(&wb)
    }

    /// Tries the single move `(i, j)` from the board of node `m`: if it is
    /// legal and its successor board was never seen, records the successor as
    /// a new child node; in every case the successor's hash ends up in the
    /// visited set whenever the move is legal.
    #[verifier::rlimit(60)]
    fn try_move(
        &mut self,
        arena: &mut Vec<Move>,
        m: usize,
        b: &Vec<u8>,
        overlay: &Vec<u8>,
        i: usize,
        j: usize,
        res: &mut Vec<usize>,
    )
        requires
            old(self).wf(),
            (m as int) < old(arena)@.len(),
            arena_inv(old(self).dimensions, old(arena)@),
            b@ == old(arena)@[m as int].board@,
            board_wf(old(self).dimensions, b@),
            overlay_ok(old(self).dimensions, b@, overlay@),
            (i as int) < b@.len(),
            (j as int) < b@.len(),
            b@[i as int] == 1 || b@[i as int] == 2,
            diag_related(old(self).dimensions.cols as int, i as int, j as int),
        ensures
            final(self).wf(),
            final(self).dimensions == old(self).dimensions,
            arena_inv(old(self).dimensions, final(arena)@),
            expansion_ok(old(self).dimensions, m as int, old(arena)@, final(arena)@,
                old(self).seen@, final(self).seen@, old(res)@, final(res)@),
            legal_move(old(self).dimensions, b@, i as int, j as int)
                ==> final(self).seen@.contains(
                    hash_spec(apply_move(b@, i as int, j as int)) as u64),
            old(self).seen@.finite() ==> final(self).seen@.finite(),
    {
        let dim = self.dimensions;
        let legal = move_allowed(&dim, b, overlay, i, j);
        if !legal {
            proof {
                assert(arena@.subrange(0, arena@.len() as int) =~= arena@);
                assert(res@.subrange(0, res@.len() as int) =~= res@);
            }
            return;
        }
        let p = b[i];
        let mut nb = copy_board(b);
        nb.set(j, p);
        nb.set(i, 0);
        proof {
            assert(nb@ == apply_move(b@, i as int, j as int));
            lemma_valid_dims_small(dim);
            crate::node::lemma_move_preserves_wf(dim, b@, i as int, j as int);
        }
        proof {
            crate::board::lemma_hash_bound(nb@);
        }
        let nm = Move::new(nb, Some(m), (i, j));
        let h = nm.hash;
        let ghost pre_seen = self.seen@;
        let is_new = self.seen.insert(h);
        if is_new {
            res.push(arena.len());
            let ghost pre_arena = arena@;
            arena.push(nm);
            proof {
                assert(arena@.subrange(0, pre_arena.len() as int) =~= pre_arena);
                assert(res@.subrange(0, old(res)@.len() as int) =~= old(res)@);
                assert forall|k: int| 0 <= k < arena@.len()
                    implies #[trigger] node_inv(dim, arena@, k) by {
                    if k < pre_arena.len() {
                        assert(node_inv(dim, pre_arena, k));
                        assert(arena@[k] == pre_arena[k]);
                        match pre_arena[k].parent {
                            Option::Some(pp) => {
                                assert(arena@[pp as int] == pre_arena[pp as int]);
                            },
                            Option::None => {},
                        }
                    } else {
                        assert(arena@[k] == nm);
                    }
                }
                let a0 = old(arena)@;
                let a1 = arena@;
                let s0 = old(self).seen@;
                let s1 = self.seen@;
                let r0 = old(res)@;
                let r1 = res@;
                let dm = old(self).dimensions;
                assert(a1.subrange(0, a0.len() as int) == a0);
                assert(r1.subrange(0, r0.len() as int) == r0);
                assert(r1.len() == r0.len() + (a1.len() - a0.len()));
                assert forall|t: int| r0.len() <= t < r1.len()
                    implies (#[trigger] r1[t]) as int == a0.len() + (t - r0.len()) by {
                    assert(t == r0.len());
                    assert(r1[t] == old(res)@.push((a0.len()) as usize)[t]);
                }
                assert forall|k: int| a0.len() <= k < a1.len() implies {
                    &&& (#[trigger] a1[k]).parent == Some(m)
                    &&& legal_move(dm, a0[m as int].board@, a1[k].b_move.0 as int,
                        a1[k].b_move.1 as int)
                    &&& a1[k].board@ == apply_move(a0[m as int].board@,
                        a1[k].b_move.0 as int, a1[k].b_move.1 as int)
                    &&& !s0.contains(a1[k].hash)
                    &&& s1.contains(a1[k].hash)
                } by {
                    assert(a1[k] == nm);
                }
                assert(s0.subset_of(s1));
                assert forall|h2: u64| s1.contains(h2) && !s0.contains(h2)
                    implies exists|k: int| a0.len() <= k < a1.len()
                        && (#[trigger] a1[k]).hash == h2 by {
                    assert(h2 == h);
                    assert(a1[a0.len() as int].hash == h);
                }
            }
        } else {
            proof {
                assert(self.seen@ == pre_seen);
                assert(arena@.subrange(0, arena@.len() as int) =~= arena@);
                assert(res@.subrange(0, res@.len() as int) =~= res@);
            }
        }
    }

    /// Expands node `m`: generates every legal move of every piece on its
    /// board, deduplicates the successor boards against the visited set, and
    /// appends each genuinely new successor to the arena, its index to `res`.
    /// Afterwards the visited set holds the hash of every legal successor of
    /// `m`'s board — seen boards are expanded at most once over the whole
    /// search.
    #[verifier::rlimit(60)]
    pub fn push_next_moves(&mut self, arena: &mut Vec<Move>, m: usize, res: &mut Vec<usize>)
        requires
            old(self).wf(),
            (m as int) < old(arena)@.len(),
            arena_inv(old(self).dimensions, old(arena)@),
        ensures
            final(self).wf(),
            final(self).dimensions == old(self).dimensions,
            arena_inv(old(self).dimensions, final(arena)@),
            expansion_ok(old(self).dimensions, m as int, old(arena)@, final(arena)@,
                old(self).seen@, final(self).seen@, old(res)@, final(res)@),
            forall|i2: int, j2: int|
                legal_move(old(self).dimensions, old(arena)@[m as int].board@, i2, j2)
                ==> final(self).seen@.contains(
                    #[trigger] hash_spec(apply_move(old(arena)@[m as int].board@, i2, j2))
                        as u64),
            old(self).seen@.finite() ==> final(self).seen@.finite(),
    {
        let dim = self.dimensions;
        proof {
            assert(node_inv(dim, old(arena)@, m as int));
            lemma_valid_dims_small(dim);
        }
        let b = copy_board(&arena[m].board);
        let ghost b0 = b@;
        let overlay = attacked_spaces(&dim, &b);
        let cells = b.len();
        proof {
            assert(arena@.subrange(0, arena@.len() as int) =~= arena@);
            assert(res@.subrange(0, res@.len() as int) =~= res@);
        }
        let mut i: usize = 0;
        while i < cells
            invariant
                i <= cells,
                cells == b0.len(),
                b@ == b0,
                self.wf(),
                self.dimensions == dim,
                overlay_ok(dim, b0, overlay@),
                board_wf(dim, b0),
                (m as int) < old(arena)@.len(),
                b0 == old(arena)@[m as int].board@,
                arena_inv(dim, arena@),
                expansion_ok(dim, m as int, old(arena)@, arena@,
                    old(self).seen@, self.seen@, old(res)@, res@),
                old(self).seen@.finite() ==> self.seen@.finite(),
                forall|i2: int, j2: int| 0 <= i2 < i && legal_move(dim, b0, i2, j2)
                    ==> self.seen@.contains(
                        #[trigger] hash_spec(apply_move(b0, i2, j2)) as u64),
            decreases cells - i,
        {
            let p = b[i];
            if p > 0 {
                let targets = bishop_for_each(&dim, i);
                let mut ti: usize = 0;
                while ti < targets.len()
                    invariant
                        ti <= targets@.len(),
                        i < cells,
                        cells == b0.len(),
                        b@ == b0,
                        p == b0[i as int],
                        p == 1 || p == 2,
                        self.wf(),
                        self.dimensions == dim,
                        overlay_ok(dim, b0, overlay@),
                        board_wf(dim, b0),
                        (m as int) < old(arena)@.len(),
                        b0 == old(arena)@[m as int].board@,
                        arena_inv(dim, arena@),
                        expansion_ok(dim, m as int, old(arena)@, arena@,
                            old(self).seen@, self.seen@, old(res)@, res@),
                        old(self).seen@.finite() ==> self.seen@.finite(),
                        forall|k2: int| 0 <= k2 < targets@.len()
                            ==> (targets@[k2] as int) < b0.len(),
                        forall|j2: usize| (j2 as int) < dim.cells()
                            ==> (#[trigger] targets@.contains(j2)
                                <==> diag_related(dim.cols as int, i as int, j2 as int)),
                        forall|i2: int, j2: int| 0 <= i2 < i && legal_move(dim, b0, i2, j2)
                            ==> self.seen@.contains(
                                #[trigger] hash_spec(apply_move(b0, i2, j2)) as u64),
                        forall|u: int| 0 <= u < ti
                            && legal_move(dim, b0, i as int, #[trigger] targets@[u] as int)
                            ==> self.seen@.contains(
                                hash_spec(apply_move(b0, i as int, targets@[u] as int))
                                    as u64),
                    decreases targets@.len() - ti,
                {
                    let j = targets[ti];
                    proof {
                        assert(targets@.contains(targets@[ti as int]));
                    }
                    let ghost mid_arena = arena@;
                    let ghost mid_seen = self.seen@;
                    let ghost mid_res = res@;
                    self.try_move(arena, m, &b, &overlay, i, j, res);
                    proof {
                        lemma_expansion_trans(dim, m as int, old(arena)@, mid_arena,
                            arena@, old(self).seen@, mid_seen, self.seen@,
                            old(res)@, mid_res, res@);
                    }
                    ti = ti + 1;
                }
                assert forall|j2: int| legal_move(dim, b0, i as int, j2)
                    implies self.seen@.contains(
                        #[trigger] hash_spec(apply_move(b0, i as int, j2)) as u64) by {
                    assert(diag_related(dim.cols as int, i as int, j2));
                    assert(0 <= j2 < b0.len());
                    assert(targets@.contains(j2 as usize));
                    let u = choose|u: int| 0 <= u < targets@.len()
                        && targets@[u] == j2 as usize;
                    assert(legal_move(dim, b0, i as int, targets@[u] as int));
                }
                assert forall|i2: int, j2: int| 0 <= i2 < i + 1 && legal_move(dim, b0, i2, j2)
                    implies self.seen@.contains(
                        #[trigger] hash_spec(apply_move(b0, i2, j2)) as u64) by {
                }
            } else {
                assert forall|i2: int, j2: int| 0 <= i2 < i + 1 && legal_move(dim, b0, i2, j2)
                    implies self.seen@.contains(
                        #[trigger] hash_spec(apply_move(b0, i2, j2)) as u64) by {
                    if i2 == i as int {
                        assert(b0[i2] == 0);
                        assert(false);
                    }
                }
            }
            i = i + 1;
        }
    }
}

/// Decides the full move rule from scratch: bounds, a piece on the source,
/// a shared diagonal, and then the attack-block and path-clear checks.
pub fn is_legal_move(dim: &Dimensions, b: &Vec<u8>, i: usize, j: usize) -> (r: bool)
    requires
        dim.valid(),
        board_wf(*dim, b@),
    ensures
        r == legal_move(*dim, b@, i as int, j as int),
{
    if i >= b.len() || j >= b.len() {
        return false;
    }
    let p = b[i];
    if p == 0 {
        return false;
    }
    proof {
        lemma_valid_dims_small(*dim);
        lemma_cell_coords(dim.cols as int, dim.rows as int, i as int);
        lemma_cell_coords(dim.cols as int, dim.rows as int, j as int);
    }
    let cols = dim.cols;
    let ri = i / cols;
    let ci = i % cols;
    let rj = j / cols;
    let cj = j % cols;
    let down = ci + rj == cj + ri;
    let anti = ci + ri == cj + rj;
    if i == j || (!down && !anti) {
        return false;
    }
    let overlay = attacked_spaces(dim, b);
    move_allowed(dim, b, &overlay, i, j)
}
/// A legal play from the starting board for `dim`.
pub open spec fn plays(dim: Dimensions, p: Seq<(usize, usize)>) -> bool {
    path_legal(dim, starting_board_spec(dim), p)
}

/// The board such a play ends on.
pub open spec fn played(dim: Dimensions, p: Seq<(usize, usize)>) -> Seq<u8> {
    board_after(starting_board_spec(dim), p)
}

/// If every play of some length `level` ends on a board that a strictly
/// shorter play also reaches, and no play shorter than `level` wins, then no
/// play at all wins: a longer play is shortened through its length-`level`
/// prefix until it falls below `level`.
proof fn lemma_no_winning_play(dim: Dimensions, level: int, q: Seq<(usize, usize)>)
    requires
        0 <= level,
        forall|p: Seq<(usize, usize)>| #[trigger] plays(dim, p) && p.len() == level
            ==> exists|p2: Seq<(usize, usize)>| #[trigger] plays(dim, p2)
                && p2.len() < level && played(dim, p2) == played(dim, p),
        forall|p: Seq<(usize, usize)>| #[trigger] plays(dim, p) && p.len() < level
            ==> played(dim, p) != winning_board_spec(dim),
        plays(dim, q),
    ensures
        played(dim, q) != winning_board_spec(dim),
    decreases q.len(),
{
    if q.len() >= level {
        let start = starting_board_spec(dim);
        let pre = q.take(level);
        let suf = q.skip(level);
        assert(q =~= pre + suf);
        crate::node::lemma_path_concat(dim, start, pre, suf);
        assert(plays(dim, pre) && pre.len() == level);
        let p2 = choose|p2: Seq<(usize, usize)>| #[trigger] plays(dim, p2)
            && p2.len() < level && played(dim, p2) == played(dim, pre);
        crate::node::lemma_path_concat(dim, start, p2, suf);
        let q2 = p2 + suf;
        assert(plays(dim, q2));
        assert(played(dim, q2) == played(dim, q));
        assert(q2.len() < q.len());
        lemma_no_winning_play(dim, level, q2);
    }
}

/// Runs the whole breadth-first search for a `rows` by `cols` board.  On
/// `Solved`, the returned moves form a legal path from the starting board
/// whose replay ends exactly on the winning board, and no legal play solves
/// the puzzle in fewer moves: the path's length is the first search level at
/// which the winning position appears.  `Exhausted` means no legal play at
/// all reaches the winning board: the frontier emptied after covering every
/// reachable position.  Dimensions are rejected up front exactly when they
/// are not valid.
#[verifier::rlimit(100)]
pub fn solve(rows: usize, cols: usize) -> (r: Result<SearchOutcome, ConfigError>)
    ensures
        r is Ok <==> (Dimensions { rows, cols }).valid(),
        (match r {
            Ok(SearchOutcome::Solved(path)) => {
                &&& plays((Dimensions { rows, cols }), path@)
                &&& played((Dimensions { rows, cols }), path@)
                    == winning_board_spec((Dimensions { rows, cols }))
                &&& path@.len() >= 1
                &&& forall|q: Seq<(usize, usize)>|
                    #[trigger] plays((Dimensions { rows, cols }), q)
                        && played((Dimensions { rows, cols }), q)
                            == winning_board_spec((Dimensions { rows, cols }))
                    ==> q.len() >= path@.len()
            },
            Ok(SearchOutcome::Exhausted) => forall|q: Seq<(usize, usize)>|
                #[trigger] plays((Dimensions { rows, cols }), q)
                ==> played((Dimensions { rows, cols }), q)
                    != winning_board_spec((Dimensions { rows, cols })),
            Err(_) => true,
        }),
{
    let mut game = match Game::new(rows, cols) {
        Ok(g) => g,
        Err(e) => {
            return Err(e);
        },
    };
    let dim = game.dimensions;
    let ghost start = starting_board_spec(dim);
    let ghost winning = winning_board_spec(dim);
    let root = game.starting_move();
    let win_hash = game.winning_hash();
    let mut arena: Vec<Move> = Vec::new();
    proof {
        lemma_winning_is_flipped_start(dim);
        lemma_valid_dims_small(dim);
        crate::board::lemma_hash_bound(start);
        crate::board::lemma_hash_bound(winning);
    }
    arena.push(root);
    proof {
        assert forall|k: int| 0 <= k < arena@.len()
            implies #[trigger] node_inv(dim, arena@, k) by {
        }
        assert(node_moves(arena@, 0).len() == 0);
        let empty = Seq::<(usize, usize)>::empty();
        assert(plays(dim, empty) && played(dim, empty) == start);
        assert forall|h: u64| #[trigger] game.seen@.contains(h)
            implies exists|p: Seq<(usize, usize)>| #[trigger] plays(dim, p)
                && p.len() <= 0 && hash_spec(played(dim, p)) as u64 == h by {
            assert(h == root.hash);
            assert(plays(dim, empty) && empty.len() <= 0
                && hash_spec(played(dim, empty)) as u64 == h);
        }
    }
    let mut frontier: Vec<usize> = Vec::new();
    frontier.push(0);
    proof {
        assert forall|p: Seq<(usize, usize)>| #[trigger] plays(dim, p) && p.len() == 0
            implies exists|t: int| 0 <= t < frontier@.len()
                && arena@[(#[trigger] frontier@[t]) as int].board@ == played(dim, p) by {
            assert(played(dim, p) == start);
            assert(frontier@[0] == 0usize);
            assert(arena@[(frontier@[0]) as int].board@ == played(dim, p));
        }
    }
    // A level counter caps the search far beyond any reachable depth; it only
    // serves as the loop's termination measure.
    let mut level: u64 = 0;
    while frontier.len() > 0 && level < u64::MAX
        invariant
            game.wf(),
            game.dimensions == dim,
            dim == (Dimensions { rows, cols }),
            start == starting_board_spec(dim),
            winning == winning_board_spec(dim),
            win_hash as int == hash_spec(winning),
            arena_inv(dim, arena@),
            game.seen@.finite(),
            frontier@.len() > 0 ==> game.seen@.len() >= level as int + 1,
            forall|t: int| 0 <= t < frontier@.len()
                ==> ((#[trigger] frontier@[t]) as int) < arena@.len(),
            forall|t: int| 0 <= t < frontier@.len()
                ==> node_moves(arena@, (#[trigger] frontier@[t]) as int).len()
                    == level as int,
            forall|h: u64| #[trigger] game.seen@.contains(h)
                ==> exists|p: Seq<(usize, usize)>| #[trigger] plays(dim, p)
                    && p.len() <= level as int
                    && hash_spec(played(dim, p)) as u64 == h,
            forall|p: Seq<(usize, usize)>| #[trigger] plays(dim, p)
                && p.len() == level as int
                ==> (exists|t: int| 0 <= t < frontier@.len()
                        && arena@[(#[trigger] frontier@[t]) as int].board@
                            == played(dim, p))
                    || (exists|q: Seq<(usize, usize)>| #[trigger] plays(dim, q)
                        && q.len() < level as int && played(dim, q) == played(dim, p)),
            forall|q: Seq<(usize, usize)>| #[trigger] plays(dim, q)
                && q.len() < level as int ==> played(dim, q) != winning,
        decreases u64::MAX - level,
    {
        let ghost seen0 = game.seen@;
        let ghost arena0 = arena@;
        let mut next: Vec<usize> = Vec::new();
        let mut fi: usize = 0;
        proof {
            assert(arena@.subrange(0, arena0.len() as int) =~= arena0);
        }
        while fi < frontier.len()
            invariant
                fi <= frontier@.len(),
                game.wf(),
                game.dimensions == dim,
                dim == (Dimensions { rows, cols }),
                start == starting_board_spec(dim),
                winning == winning_board_spec(dim),
                win_hash as int == hash_spec(winning),
                arena_inv(dim, arena@),
                arena_inv(dim, arena0),
                arena0.len() <= arena@.len(),
                arena@.subrange(0, arena0.len() as int) == arena0,
                seen0.subset_of(game.seen@),
                game.seen@.finite(),
                forall|t: int| 0 <= t < next@.len()
                    ==> !seen0.contains(arena@[(#[trigger] next@[t]) as int].hash)
                        && game.seen@.contains(arena@[next@[t] as int].hash),
                forall|t: int| 0 <= t < frontier@.len()
                    ==> ((#[trigger] frontier@[t]) as int) < arena0.len(),
                forall|t: int| 0 <= t < frontier@.len()
                    ==> node_moves(arena0, (#[trigger] frontier@[t]) as int).len()
                        == level as int,
                forall|t: int| 0 <= t < next@.len()
                    ==> ((#[trigger] next@[t]) as int) < arena@.len(),
                forall|t: int| 0 <= t < next@.len()
                    ==> node_moves(arena@, (#[trigger] next@[t]) as int).len()
                        == level as int + 1,
                forall|h: u64| #[trigger] game.seen@.contains(h)
                    ==> exists|p: Seq<(usize, usize)>| #[trigger] plays(dim, p)
                        && p.len() <= level as int + 1
                        && hash_spec(played(dim, p)) as u64 == h,
                forall|h: u64| seen0.contains(h)
                    ==> exists|p: Seq<(usize, usize)>| #[trigger] plays(dim, p)
                        && p.len() <= level as int
                        && hash_spec(played(dim, p)) as u64 == h,
                forall|q: Seq<(usize, usize)>| #[trigger] plays(dim, q)
                    && q.len() < level as int ==> played(dim, q) != winning,
                forall|t: int| 0 <= t < fi
                    ==> (#[trigger] arena0[frontier@[t] as int]).hash != win_hash,
                forall|t: int, i2: int, j2: int| 0 <= t < fi
                    && #[trigger] legal_move(dim, arena0[frontier@[t] as int].board@,
                        i2, j2)
                    ==> game.seen@.contains(
                        hash_spec(apply_move(arena0[frontier@[t] as int].board@, i2, j2))
                            as u64),
                forall|h: u64| #[trigger] game.seen@.contains(h) && !seen0.contains(h)
                    ==> exists|t: int| 0 <= t < next@.len()
                        && arena@[(#[trigger] next@[t]) as int].hash == h,
            decreases frontier@.len() - fi,
        {
            let cur = frontier[fi];
            proof {
                assert(arena@.subrange(0, arena0.len() as int)[cur as int]
                    == arena@[cur as int]);
                assert(arena@[cur as int] == arena0[cur as int]);
                crate::node::lemma_node_moves_stable(arena0, arena@, cur as int);
            }
            if arena[cur].hash == win_hash {
                proof {
                    assert(node_inv(dim, arena@, cur as int));
                    if arena@[cur as int].board@ != winning {
                        lemma_hash_injective(arena@[cur as int].board@, winning);
                        assert(false);
                    }
                    lemma_node_path(dim, arena@, cur as int);
                    if arena@[cur as int].parent is None {
                        assert(false);
                    }
                    assert forall|n: int| 0 <= n < arena@.len()
                        implies match (#[trigger] arena@[n]).parent {
                            Option::Some(pp) => (pp as int) < n,
                            Option::None => true,
                        } by {
                        assert(node_inv(dim, arena@, n));
                    }
                }
                let path = reconstruct_path(&arena, cur);
                proof {
                    assert(path@.len() == level as int);
                    assert forall|q: Seq<(usize, usize)>| #[trigger] plays(dim, q)
                        && played(dim, q) == winning
                        implies q.len() >= path@.len() by {
                        if q.len() < level as int {
                            assert(played(dim, q) != winning);
                        }
                    }
                }
                return Ok(SearchOutcome::Solved(path));
            }
            let ghost pre_arena = arena@;
            let ghost pre_next = next@;
            let ghost pre_seen = game.seen@;
            game.push_next_moves(&mut arena, cur, &mut next);
            proof {
                let bcur = arena0[cur as int].board@;
                assert(pre_arena[cur as int].board@ == bcur);
                lemma_node_path(dim, arena0, cur as int);
                let pcur = node_moves(arena0, cur as int);
                assert(plays(dim, pcur) && played(dim, pcur) == bcur
                    && pcur.len() == level as int);
                // Arena entries and move lists of old nodes are unchanged.
                assert forall|k: int| 0 <= k < pre_arena.len()
                    implies arena@[k] == pre_arena[k]
                        && node_moves(arena@, k) == node_moves(pre_arena, k) by {
                    assert(arena@.subrange(0, pre_arena.len() as int)[k] == arena@[k]);
                    crate::node::lemma_node_moves_stable(pre_arena, arena@, k);
                }
                assert(arena@.subrange(0, arena0.len() as int)
                    =~= arena@.subrange(0, pre_arena.len() as int)
                        .subrange(0, arena0.len() as int));
                // Move lists of the nodes this expansion appended.
                assert forall|k: int| pre_arena.len() <= k < arena@.len()
                    implies node_moves(arena@, k).len() == level as int + 1
                        && plays(dim, node_moves(arena@, k))
                        && played(dim, node_moves(arena@, k)) == arena@[k].board@ by {
                    assert(node_inv(dim, arena@, k));
                    lemma_node_path(dim, arena@, k);
                    assert(arena@[k].parent == Some(cur));
                    assert(node_moves(arena@, k)
                        == node_moves(arena@, cur as int).push(arena@[k].b_move));
                    assert(node_moves(arena@, cur as int) == node_moves(pre_arena, cur as int));
                    assert(node_moves(pre_arena, cur as int) == pcur);
                }
                // Old entries of next are unchanged; every entry still points
                // at a node one level deeper than this frontier.
                assert forall|t: int| 0 <= t < pre_next.len()
                    implies next@[t] == pre_next[t] by {
                    assert(next@.subrange(0, pre_next.len() as int)[t] == next@[t]);
                }
                assert forall|t: int| 0 <= t < next@.len()
                    implies ((#[trigger] next@[t]) as int) < arena@.len()
                        && node_moves(arena@, next@[t] as int).len()
                            == level as int + 1 by {
                    if t < pre_next.len() {
                        assert(next@[t] == pre_next[t]);
                        assert((pre_next[t] as int) < pre_arena.len());
                        assert(node_moves(arena@, next@[t] as int)
                            == node_moves(pre_arena, pre_next[t] as int));
                    } else {
                        assert(next@[t] as int == pre_arena.len() + (t - pre_next.len()));
                    }
                }
                // Hashes of next's nodes are fresh for this level and seen.
                assert forall|t: int| 0 <= t < next@.len()
                    implies !seen0.contains(arena@[(#[trigger] next@[t]) as int].hash)
                        && game.seen@.contains(arena@[next@[t] as int].hash) by {
                    if t < pre_next.len() {
                        assert(next@[t] == pre_next[t]);
                        assert(arena@[next@[t] as int] == pre_arena[next@[t] as int]);
                    } else {
                        assert(next@[t] as int
                            == pre_arena.len() + (t - pre_next.len()));
                        assert(!pre_seen.contains(arena@[next@[t] as int].hash));
                    }
                }
                // Every hash new to this level has a node in next.
                assert forall|h: u64| game.seen@.contains(h) && !seen0.contains(h)
                    implies exists|t: int| 0 <= t < next@.len()
                        && arena@[(#[trigger] next@[t]) as int].hash == h by {
                    if pre_seen.contains(h) {
                        let t = choose|t: int| 0 <= t < pre_next.len()
                            && pre_arena[pre_next[t] as int].hash == h;
                        assert(next@[t] == pre_next[t]);
                        assert(arena@[next@[t] as int].hash == h);
                    } else {
                        let k = choose|k: int| pre_arena.len() <= k < arena@.len()
                            && (#[trigger] arena@[k]).hash == h;
                        let t = pre_next.len() + (k - pre_arena.len());
                        assert(next@[t] as int == k);
                        assert(arena@[next@[t] as int].hash == h);
                    }
                }
                // Every hash in the grown set has a play of at most level + 1.
                assert forall|h: u64| #[trigger] game.seen@.contains(h)
                    implies exists|p: Seq<(usize, usize)>| #[trigger] plays(dim, p)
                        && p.len() <= level as int + 1
                        && hash_spec(played(dim, p)) as u64 == h by {
                    if !pre_seen.contains(h) {
                        let k = choose|k: int| pre_arena.len() <= k < arena@.len()
                            && (#[trigger] arena@[k]).hash == h;
                        let pk = node_moves(arena@, k);
                        assert(node_inv(dim, arena@, k));
                        crate::node::lemma_path_preserves_board_wf(dim, start, pk);
                        crate::board::lemma_hash_bound(arena@[k].board@);
                        assert(plays(dim, pk) && pk.len() <= level as int + 1
                            && hash_spec(played(dim, pk)) as u64 == h);
                    }
                }
                // Successors of the node just expanded are covered.
                assert forall|t: int, i2: int, j2: int| 0 <= t < fi + 1
                    && #[trigger] legal_move(dim, arena0[frontier@[t] as int].board@,
                        i2, j2)
                    implies game.seen@.contains(
                        hash_spec(apply_move(arena0[frontier@[t] as int].board@, i2, j2))
                            as u64) by {
                    if t == fi {
                        assert(arena0[frontier@[t] as int].board@ == bcur);
                    }
                }
            }
            fi = fi + 1;
        }
        proof {
            // No winning board stands in this frontier.
            assert forall|t: int| 0 <= t < frontier@.len()
                implies arena0[(#[trigger] frontier@[t]) as int].board@ != winning by {
                assert(node_inv(dim, arena0, frontier@[t] as int));
                assert(arena0[frontier@[t] as int].hash != win_hash);
            }
            // Plays one move longer than this level are covered by next.
            assert forall|p: Seq<(usize, usize)>| #[trigger] plays(dim, p)
                && p.len() == level as int + 1
                implies (exists|t: int| 0 <= t < next@.len()
                        && arena@[(#[trigger] next@[t]) as int].board@ == played(dim, p))
                    || (exists|q: Seq<(usize, usize)>| #[trigger] plays(dim, q)
                        && q.len() < level as int + 1
                        && played(dim, q) == played(dim, p)) by {
                let pp = p.drop_last();
                let mv = p.last();
                assert(plays(dim, pp) && pp.len() == level as int);
                assert(legal_move(dim, played(dim, pp), mv.0 as int, mv.1 as int));
                assert(played(dim, p) == apply_move(played(dim, pp),
                    mv.0 as int, mv.1 as int));
                crate::node::lemma_path_preserves_board_wf(dim, start, p);
                crate::board::lemma_hash_bound(played(dim, p));
                if exists|t: int| 0 <= t < frontier@.len()
                    && arena0[(#[trigger] frontier@[t]) as int].board@ == played(dim, pp) {
                    let t = choose|t: int| 0 <= t < frontier@.len()
                        && arena0[(#[trigger] frontier@[t]) as int].board@
                            == played(dim, pp);
                    assert(legal_move(dim, arena0[frontier@[t] as int].board@,
                        mv.0 as int, mv.1 as int));
                    let h = hash_spec(played(dim, p)) as u64;
                    assert(game.seen@.contains(h));
                    if seen0.contains(h) {
                        let q = choose|q: Seq<(usize, usize)>| #[trigger] plays(dim, q)
                            && q.len() <= level as int
                            && hash_spec(played(dim, q)) as u64 == h;
                        crate::node::lemma_path_preserves_board_wf(dim, start, q);
                        if played(dim, q) != played(dim, p) {
                            lemma_hash_distinct(dim, played(dim, q), played(dim, p));
                            assert(false);
                        }
                    } else {
                        let t2 = choose|t2: int| 0 <= t2 < next@.len()
                            && arena@[(#[trigger] next@[t2]) as int].hash == h;
                        assert(node_inv(dim, arena@, next@[t2] as int));
                        let nb = arena@[next@[t2] as int].board@;
                        if nb != played(dim, p) {
                            lemma_hash_distinct(dim, nb, played(dim, p));
                            assert(false);
                        }
                    }
                } else {
                    let q = choose|q: Seq<(usize, usize)>| #[trigger] plays(dim, q)
                        && q.len() < level as int && played(dim, q) == played(dim, pp);
                    crate::node::lemma_path_push(dim, start, q, mv.0, mv.1);
                    let q2 = q.push(mv);
                    assert(plays(dim, q2) && q2.len() < level as int + 1
                        && played(dim, q2) == played(dim, p));
                }
            }
            // So no play shorter than level + 1 wins.
            assert forall|q: Seq<(usize, usize)>| #[trigger] plays(dim, q)
                && q.len() < level as int + 1
                implies played(dim, q) != winning by {
                if q.len() == level as int && played(dim, q) == winning {
                    assert(false);
                }
            }
        }
        proof {
            if next@.len() > 0 {
                let h0 = arena@[next@[0] as int].hash;
                assert(!seen0.contains(h0) && game.seen@.contains(h0));
                assert(seen0.insert(h0).subset_of(game.seen@));
                vstd::set_lib::lemma_len_subset(seen0.insert(h0), game.seen@);
                assert(seen0.insert(h0).len() == seen0.len() + 1);
            }
        }
        frontier = next;
        level = level + 1;
    }
    proof {
        if frontier@.len() > 0 {
            assert(level == u64::MAX);
            assert(game.seen@.len() >= u64::MAX as int + 1);
            assert(game.seen@.len()
                == vstd::std_specs::hash::spec_hash_set_len(&game.seen));
            assert(vstd::std_specs::hash::spec_hash_set_len(&game.seen) <= usize::MAX);
            assert(false);
        }
        assert forall|q2: Seq<(usize, usize)>| #[trigger] plays(dim, q2)
            implies played(dim, q2) != winning by {
            lemma_no_winning_play(dim, level as int, q2);
        }
    }
    Ok(SearchOutcome::Exhausted)
}

} // verus!
