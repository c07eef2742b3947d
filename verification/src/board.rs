//! Board state: well-formed boards, the canonical starting and winning
//! layouts, the attack overlay, piece counting, and the injective board hash.

use vstd::prelude::*;
use vstd::arithmetic::div_mod::lemma_fundamental_div_mod_converse;
use vstd::arithmetic::power2::{pow2, lemma2_to64, lemma_pow2_adds, lemma_pow2_strictly_increases};
use crate::geometry::{
    Dimensions, col_of, diag_related, lemma_cell_coords, lemma_valid_dims_small, bishop_for_each,
};

verus! {

/// A well-formed board for `dim`: one value per board cell, each cell empty
/// (0) or holding a piece of side A (1) or side B (2).
pub open spec fn board_wf(dim: Dimensions, b: Seq<u8>) -> bool {
    &&& b.len() == dim.cells()
    &&& forall|k: int| 0 <= k < b.len() ==> b[k] == 0 || b[k] == 1 || b[k] == 2
}

/// Cell value of the canonical starting layout: side A in column 0, side B in
/// the last column, every other cell empty.
pub open spec fn start_cell(dim: Dimensions, k: int) -> u8 {
    if col_of(dim.cols as int, k) == 0 {
        1
    } else if col_of(dim.cols as int, k) == dim.cols - 1 {
        2
    } else {
        0
    }
}

/// The canonical starting layout.
pub open spec fn starting_board_spec(dim: Dimensions) -> Seq<u8> {
    Seq::new(dim.cells() as nat, |k: int| start_cell(dim, k))
}

/// Swap the sides of one cell value; empty cells stay empty.
pub open spec fn flip_cell(v: u8) -> u8 {
    if v == 0 {
        0
    } else {
        (3 - v) as u8
    }
}

/// The target layout: the starting layout with every piece's side swapped.
pub open spec fn winning_board_spec(dim: Dimensions) -> Seq<u8> {
    Seq::new(dim.cells() as nat, |k: int| flip_cell(start_cell(dim, k)))
}

/// Side `side` attacks cell `j`: some piece of that side shares a diagonal
/// with `j`.  In this puzzle's rule attacks reach along the whole clipped
/// ray; other pieces do not block them.
pub open spec fn attacks(dim: Dimensions, b: Seq<u8>, side: u8, j: int) -> bool {
    exists|i: int| 0 <= i < b.len() && b[i] == side && diag_related(dim.cols as int, i, j)
}

/// As `attacks`, restricted to attackers among the first `n` cells.
pub open spec fn attacks_before(dim: Dimensions, b: Seq<u8>, side: u8, j: int, n: int) -> bool {
    exists|i: int| 0 <= i < n && b[i] == side && diag_related(dim.cols as int, i, j)
}

/// What the attack overlay of board `b` says, bit by bit: bit 1 of cell `j`
/// is set exactly when side A occupies or attacks `j`, bit 2 likewise for
/// side B; no other bits are set.
pub open spec fn overlay_ok(dim: Dimensions, b: Seq<u8>, o: Seq<u8>) -> bool {
    &&& o.len() == b.len()
    &&& forall|j: int| 0 <= j < b.len() ==> #[trigger] o[j] < 4
    &&& forall|j: int| 0 <= j < b.len()
        ==> (((#[trigger] o[j]) & 1) != 0 <==> (b[j] == 1 || attacks(dim, b, 1, j)))
    &&& forall|j: int| 0 <= j < b.len()
        ==> (((#[trigger] o[j]) & 2) != 0 <==> (b[j] == 2 || attacks(dim, b, 2, j)))
}

/// The board hash read as a number: each cell appended as one base-4 digit,
/// first cell most significant.
pub open spec fn hash_spec(s: Seq<u8>) -> int
    decreases s.len(),
{
    if s.len() == 0 {
        0
    } else {
        hash_spec(s.drop_last()) * 4 + s.last()
    }
}

/// The hash is bounded by 4 to the number of cells.
pub proof fn lemma_hash_bound(s: Seq<u8>)
    requires
        forall|k: int| 0 <= k < s.len() ==> s[k] < 4,
    ensures
        0 <= hash_spec(s) < pow2((2 * s.len()) as nat),
    decreases s.len(),
{
    if s.len() == 0 {
        lemma2_to64();
    } else {
        lemma_hash_bound(s.drop_last());
        lemma_pow2_adds((2 * (s.len() - 1)) as nat, 2);
        lemma2_to64();
    }
}

/// The board hash is injective: distinct same-length boards hash apart.
pub proof fn lemma_hash_injective(s1: Seq<u8>, s2: Seq<u8>)
    requires
        s1.len() == s2.len(),
        forall|k: int| 0 <= k < s1.len() ==> s1[k] < 4,
        forall|k: int| 0 <= k < s2.len() ==> s2[k] < 4,
        s1 != s2,
    ensures
        hash_spec(s1) != hash_spec(s2),
    decreases s1.len(),
{
    if s1.len() == 0 {
        assert(s1 =~= s2);
    } else if s1.last() != s2.last() {
        lemma_hash_bound(s1.drop_last());
        lemma_hash_bound(s2.drop_last());
        lemma_fundamental_div_mod_converse(
            hash_spec(s1), 4, hash_spec(s1.drop_last()), s1.last() as int);
        lemma_fundamental_div_mod_converse(
            hash_spec(s2), 4, hash_spec(s2.drop_last()), s2.last() as int);
    } else {
        if s1.drop_last() == s2.drop_last() {
            assert forall|idx: int| 0 <= idx < s1.len() implies s1[idx] == s2[idx] by {
                if idx < s1.len() - 1 {
                    assert(s1.drop_last()[idx] == s2.drop_last()[idx]);
                }
            }
            assert(s1 =~= s2);
        }
        lemma_hash_injective(s1.drop_last(), s2.drop_last());
    }
}

/// Two distinct well-formed boards of one dimension pack into distinct
/// 64-bit hashes: the packing stays within 64 bits, so the cast loses
/// nothing.
pub proof fn lemma_hash_distinct(dim: Dimensions, b1: Seq<u8>, b2: Seq<u8>)
    requires
        dim.valid(),
        board_wf(dim, b1),
        board_wf(dim, b2),
        b1 != b2,
    ensures
        hash_spec(b1) as u64 != hash_spec(b2) as u64,
{
    lemma_hash_bound(b1);
    lemma_hash_bound(b2);
    lemma_hash_injective(b1, b2);
    lemma2_to64();
    if 2 * b1.len() < 64 {
        lemma_pow2_strictly_increases((2 * b1.len()) as nat, 64);
    }
}

/// Packs the board into a 64-bit integer, one base-4 digit per cell.  The
/// dimension cap keeps the packing exact, so it is injective.
pub fn hash_board(b: &Vec<u8>) -> (h: u64)
    requires
        b@.len() <= 32,
        forall|k: int| 0 <= k < b@.len() ==> b@[k] < 4,
    ensures
        h as int == hash_spec(b@),
{
    let mut h: u64 = 0;
    let mut k: usize = 0;
    while k < b.len()
        invariant
            k <= b@.len(),
            h as int == hash_spec(b@.subrange(0, k as int)),
        decreases b@.len() - k,
    {
        proof {
            let pre = b@.subrange(0, k as int);
            lemma_hash_bound(pre);
            lemma_pow2_adds((2 * k) as nat, 2);
            if 2 * k + 2 < 64 {
                lemma_pow2_strictly_increases((2 * k + 2) as nat, 64);
            }
            lemma2_to64();
            assert(b@.subrange(0, k + 1).drop_last() =~= pre);
        }
        h = h * 4 + (b[k] as u64);
        k = k + 1;
    }
    proof {
        assert(b@.subrange(0, b@.len() as int) =~= b@);
    }
    h
}

/// Number of cells of `s` holding value `v`.
pub open spec fn count_cells(s: Seq<u8>, v: u8) -> int
    decreases s.len(),
{
    if s.len() == 0 {
        0
    } else {
        count_cells(s.drop_last(), v) + (if s.last() == v { 1int } else { 0int })
    }
}

/// Updating one cell moves the counts by exactly the leaving and entering
/// values.
pub proof fn lemma_count_update(s: Seq<u8>, k: int, v: u8, c: u8)
    requires
        0 <= k < s.len(),
    ensures
        count_cells(s.update(k, v), c) == count_cells(s, c)
            - (if s[k] == c { 1int } else { 0int })
            + (if v == c { 1int } else { 0int }),
    decreases s.len(),
{
    if k == s.len() - 1 {
        assert(s.update(k, v).drop_last() =~= s.drop_last());
    } else {
        assert(s.update(k, v).drop_last() =~= s.drop_last().update(k, v));
        lemma_count_update(s.drop_last(), k, v, c);
    }
}

/// Makes an identical copy of a board.
pub fn copy_board(b: &Vec<u8>) -> (c: Vec<u8>)
    ensures
        c@ == b@,
{
    let mut c: Vec<u8> = Vec::new();
    let mut k: usize = 0;
    while k < b.len()
        invariant
            k <= b@.len(),
            c@ =~= b@.subrange(0, k as int),
        decreases b@.len() - k,
    {
        c.push(b[k]);
        k = k + 1;
    }
    proof {
        assert(b@.subrange(0, b@.len() as int) =~= b@);
    }
    c
}

/// The successor board of moving the piece on `i` to the empty cell `j`.
pub open spec fn apply_move(b: Seq<u8>, i: int, j: int) -> Seq<u8> {
    b.update(j, b[i]).update(i, 0)
}

/// The puzzle's move rule, evaluated on board `b` for moving the piece on
/// cell `i` to cell `j`: the cells share a diagonal, the destination is
/// empty, the other side neither occupies nor attacks the destination, and
/// every cell strictly between destination and source is empty.
pub open spec fn legal_move(dim: Dimensions, b: Seq<u8>, i: int, j: int) -> bool {
    &&& 0 <= i < b.len()
    &&& 0 <= j < b.len()
    &&& (b[i] == 1 || b[i] == 2)
    &&& diag_related(dim.cols as int, i, j)
    &&& !attacks(dim, b, flip_cell(b[i]), j)
    &&& b[j] == 0
    &&& forall|t: int| 1 <= t < crate::geometry::ray_len(dim.cols as int, j, i)
        ==> b[#[trigger] crate::geometry::ray_cell(dim.cols as int, j, i, t)] == 0
}

/// Replays one move: the value on `i` moves to `j`, `i` becomes empty.
pub fn board_after_move(b: &Vec<u8>, i: usize, j: usize) -> (nb: Vec<u8>)
    requires
        (i as int) < b@.len(),
        (j as int) < b@.len(),
    ensures
        nb@ == apply_move(b@, i as int, j as int),
{
    let p = b[i];
    let mut nb = copy_board(b);
    nb.set(j, p);
    nb.set(i, 0);
    nb
}

/// Builds the canonical starting board for `dim`.
pub fn starting_board(dim: &Dimensions) -> (b: Vec<u8>)
    requires
        dim.valid(),
    ensures
        b@ == starting_board_spec(*dim),
        board_wf(*dim, b@),
{
    proof {
        lemma_valid_dims_small(*dim);
    }
    let cells = dim.rows * dim.cols;
    let mut b: Vec<u8> = Vec::new();
    let mut k: usize = 0;
    while k < cells
        invariant
            k <= cells,
            b@.len() == k,
            forall|t: int| 0 <= t < k ==> b@[t] == start_cell(*dim, t),
        decreases cells - k,
    {
        let c = k % dim.cols;
        if c == 0 {
            b.push(1);
        } else if c == dim.cols - 1 {
            b.push(2);
        } else {
            b.push(0);
        }
        k = k + 1;
    }
    proof {
        assert(b@ =~= starting_board_spec(*dim));
    }
    b
}

/// Builds the target board for `dim`: the starting board side-swapped.
pub fn winning_board(dim: &Dimensions) -> (b: Vec<u8>)
    requires
        dim.valid(),
    ensures
        b@ == winning_board_spec(*dim),
        board_wf(*dim, b@),
{
    proof {
        lemma_valid_dims_small(*dim);
    }
    let cells = dim.rows * dim.cols;
    let mut b: Vec<u8> = Vec::new();
    let mut k: usize = 0;
    while k < cells
        invariant
            k <= cells,
            b@.len() == k,
            forall|t: int| 0 <= t < k ==> b@[t] == flip_cell(start_cell(*dim, t)),
        decreases cells - k,
    {
        let c = k % dim.cols;
        if c == 0 {
            b.push(2);
        } else if c == dim.cols - 1 {
            b.push(1);
        } else {
            b.push(0);
        }
        k = k + 1;
    }
    proof {
        assert(b@ =~= winning_board_spec(*dim));
    }
    b
}

/// The winning layout is exactly the cell-wise side swap of the starting
/// layout, and differs from it: with at least one row and two columns the
/// board holds a piece, and that piece changes side.
pub proof fn lemma_winning_is_flipped_start(dim: Dimensions)
    requires
        dim.valid(),
    ensures
        winning_board_spec(dim).len() == starting_board_spec(dim).len(),
        forall|k: int| 0 <= k < dim.cells()
            ==> winning_board_spec(dim)[k] == flip_cell(#[trigger] starting_board_spec(dim)[k]),
        winning_board_spec(dim) != starting_board_spec(dim),
        board_wf(dim, starting_board_spec(dim)),
        board_wf(dim, winning_board_spec(dim)),
{
    lemma_valid_dims_small(dim);
    assert(col_of(dim.cols as int, 0) == 0) by (nonlinear_arith)
        requires 2 <= dim.cols;
    assert(starting_board_spec(dim)[0] == 1);
    assert(winning_board_spec(dim)[0] == 2);
    assert(winning_board_spec(dim) != starting_board_spec(dim));
}

/// Small facts about OR-ing a piece value into an overlay cell.
proof fn lemma_or_bits(a: u8, p: u8)
    requires
        a < 4,
        p == 1 || p == 2,
    ensures
        (a | p) < 4,
        ((a | p) & p) != 0,
        p == 1 ==> ((a | p) & 2) == (a & 2),
        p == 2 ==> ((a | p) & 1) == (a & 1),
{
    assert((a < 4 && (p == 1 || p == 2)) ==> ((a | p) < 4 && ((a | p) & p) != 0
        && (p == 1 ==> ((a | p) & 2) == (a & 2))
        && (p == 2 ==> ((a | p) & 1) == (a & 1)))) by (bit_vector);
}

/// Bit tests on bare cell values.
proof fn lemma_value_bits(v: u8)
    requires
        v == 0 || v == 1 || v == 2,
    ensures
        ((v & 1) != 0 <==> v == 1),
        ((v & 2) != 0 <==> v == 2),
        v < 4,
{
    assert((v == 0 || v == 1 || v == 2) ==> (((v & 1) != 0 <==> v == 1)
        && ((v & 2) != 0 <==> v == 2) && v < 4)) by (bit_vector);
}

/// The attack overlay of `b`: every piece ORs its value into every cell of
/// its two clipped diagonals; the piece's own cell keeps its value too.
#[verifier::rlimit(60)]
pub fn attacked_spaces(dim: &Dimensions, b: &Vec<u8>) -> (overlay: Vec<u8>)
    requires
        dim.valid(),
        board_wf(*dim, b@),
    ensures
        overlay_ok(*dim, b@, overlay@),
{
    let mut overlay = copy_board(b);
    let ghost icols = dim.cols as int;
    assert forall|j: int| 0 <= j < b@.len() implies (#[trigger] overlay@[j] < 4
        && (((overlay@[j] & 1) != 0) <==> (b@[j] == 1 || attacks_before(*dim, b@, 1, j, 0)))
        && (((overlay@[j] & 2) != 0) <==> (b@[j] == 2 || attacks_before(*dim, b@, 2, j, 0)))) by {
        lemma_value_bits(b@[j]);
    }
    let mut i: usize = 0;
    while i < b.len()
        invariant
            i <= b@.len(),
            overlay@.len() == b@.len(),
            forall|j: int| 0 <= j < b@.len() ==> #[trigger] overlay@[j] < 4,
            forall|j: int| 0 <= j < b@.len()
                ==> (((#[trigger] overlay@[j]) & 1) != 0
                    <==> (b@[j] == 1 || attacks_before(*dim, b@, 1, j, i as int))),
            forall|j: int| 0 <= j < b@.len()
                ==> (((#[trigger] overlay@[j]) & 2) != 0
                    <==> (b@[j] == 2 || attacks_before(*dim, b@, 2, j, i as int))),
        decreases b@.len() - i,
    {
        let p = b[i];
        if p > 0 {
            let targets = bishop_for_each(dim, i);
            let mut ti: usize = 0;
            while ti < targets.len()
                invariant
                    ti <= targets@.len(),
                    p == b@[i as int],
                    p == 1 || p == 2,
                    overlay@.len() == b@.len(),
                    forall|j: int| 0 <= j < b@.len() ==> #[trigger] overlay@[j] < 4,
                    forall|j: int| 0 <= j < b@.len()
                        ==> (((#[trigger] overlay@[j]) & p) != 0
                            <==> ((b@[j] & p) != 0 || attacks_before(*dim, b@, p, j, i as int)
                                || targets@.subrange(0, ti as int).contains(j as usize))),
                    forall|j: int| 0 <= j < b@.len()
                        ==> (((#[trigger] overlay@[j]) & (3 - p) as u8) != 0
                            <==> (b@[j] == (3 - p) as u8
                                || attacks_before(*dim, b@, (3 - p) as u8, j, i as int))),
                decreases targets@.len() - ti,
            {
                let tgt = targets[ti];
                let ghost old_overlay = overlay@;
                let v = overlay[tgt] | p;
                proof {
                    lemma_or_bits(old_overlay[tgt as int], p);
                }
                overlay.set(tgt, v);
                assert forall|j: int| 0 <= j < b@.len()
                    implies (((#[trigger] overlay@[j]) & p) != 0
                        <==> ((b@[j] & p) != 0 || attacks_before(*dim, b@, p, j, i as int)
                            || targets@.subrange(0, ti + 1).contains(j as usize))) by {
                    assert(targets@.subrange(0, ti + 1) =~= targets@.subrange(0, ti as int)
                        .push(targets@[ti as int]));
                    if targets@.subrange(0, ti as int).contains(j as usize) {
                        assert(targets@.subrange(0, ti + 1).contains(j as usize));
                    }
                    if j == tgt as int {
                        assert(targets@.subrange(0, ti + 1)[ti as int] == tgt);
                        assert(targets@.subrange(0, ti + 1).contains(j as usize));
                    }
                }
                ti = ti + 1;
            }
            assert forall|j: int| 0 <= j < b@.len()
                implies (((#[trigger] overlay@[j]) & p) != 0
                    <==> ((b@[j] & p) != 0 || attacks_before(*dim, b@, p, j, i + 1))) by {
                lemma_value_bits(b@[j]);
                assert(targets@.subrange(0, targets@.len() as int) =~= targets@);
                if targets@.contains(j as usize) {
                    assert(diag_related(icols, i as int, j));
                    assert(b@[i as int] == p);
                    assert(attacks_before(*dim, b@, p, j, i + 1));
                }
                if attacks_before(*dim, b@, p, j, i + 1)
                    && !attacks_before(*dim, b@, p, j, i as int) {
                    let a = choose|a: int| 0 <= a < i + 1 && b@[a] == p
                        && diag_related(icols, a, j);
                    assert(a == i as int);
                    assert(targets@.contains(j as usize));
                }
            }
            assert forall|j: int| 0 <= j < b@.len()
                implies (((#[trigger] overlay@[j]) & (3 - p) as u8) != 0
                    <==> (b@[j] == (3 - p) as u8
                        || attacks_before(*dim, b@, (3 - p) as u8, j, i + 1))) by {
                if attacks_before(*dim, b@, (3 - p) as u8, j, i + 1)
                    && !attacks_before(*dim, b@, (3 - p) as u8, j, i as int) {
                    let a = choose|a: int| 0 <= a < i + 1 && b@[a] == (3 - p) as u8
                        && diag_related(icols, a, j);
                    assert(a == i as int);
                }
            }
            assert forall|j: int| 0 <= j < b@.len()
                implies (((#[trigger] overlay@[j]) & 1) != 0
                    <==> (b@[j] == 1 || attacks_before(*dim, b@, 1, j, i + 1)))
                    && (((overlay@[j]) & 2) != 0
                        <==> (b@[j] == 2 || attacks_before(*dim, b@, 2, j, i + 1))) by {
                lemma_value_bits(b@[j]);
            }
        } else {
            assert forall|j: int| 0 <= j < b@.len()
                implies (((#[trigger] overlay@[j]) & 1) != 0
                    <==> (b@[j] == 1 || attacks_before(*dim, b@, 1, j, i + 1)))
                    && (((overlay@[j]) & 2) != 0
                        <==> (b@[j] == 2 || attacks_before(*dim, b@, 2, j, i + 1))) by {
                if attacks_before(*dim, b@, 1, j, i + 1)
                    && !attacks_before(*dim, b@, 1, j, i as int) {
                    let a = choose|a: int| 0 <= a < i + 1 && b@[a] == 1
                        && diag_related(icols, a, j);
                    assert(a == i as int);
                }
                if attacks_before(*dim, b@, 2, j, i + 1)
                    && !attacks_before(*dim, b@, 2, j, i as int) {
                    let a = choose|a: int| 0 <= a < i + 1 && b@[a] == 2
                        && diag_related(icols, a, j);
                    assert(a == i as int);
                }
            }
        }
        i = i + 1;
    }
    assert forall|j: int| 0 <= j < b@.len()
        implies ((((#[trigger] overlay@[j]) & 1) != 0 <==> (b@[j] == 1 || attacks(*dim, b@, 1, j)))
            && (((overlay@[j]) & 2) != 0 <==> (b@[j] == 2 || attacks(*dim, b@, 2, j)))) by {
        assert(attacks(*dim, b@, 1, j) == attacks_before(*dim, b@, 1, j, b@.len() as int));
        assert(attacks(*dim, b@, 2, j) == attacks_before(*dim, b@, 2, j, b@.len() as int));
    }
    overlay
}

} // verus!
