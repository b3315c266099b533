use vstd::prelude::*;
use rand::Rng;
use crate::board::{grid, holds_board, in_square, is_square, CellValueSave, MoveDirection, CELL_SIDE_NUM};
use crate::line::is_tile_value;
use crate::moves::{
    lemma_move_keeps_tile_values, moved_grid, move_allowed, move_fits, move_gain,
    square_tile_values, to_down, to_left, to_right, to_up,
};
use crate::rules::{have_empty, lemma_changed_move_leaves_empty};

verus! {

/// Declares `rand::rngs::ThreadRng`, the handle to the thread's random number
/// generator, as an opaque type that verified code can pass along.
#[verifier::external_type_specification]
#[verifier::external_body]
pub struct ExThreadRng(rand::rngs::ThreadRng);

/// Calls `rand::thread_rng`, which hands out a handle to the thread's random
/// number generator. Nothing is stated of the handle.
#[verifier::external_body]
fn thread_rng() -> rand::rngs::ThreadRng {
    rand::thread_rng()
}

/// Calls `Rng::gen_range` with the range `0..bound`: a random index below
/// `bound`. The method panics on an empty range, so `bound` must be positive;
/// which index comes out is left open.
#[verifier::external_body]
fn gen_index(rng: &mut rand::rngs::ThreadRng, bound: usize) -> (index: usize)
    requires
        bound > 0,
    ensures
        index < bound,
{
    rng.gen_range(0..bound)
}

/// The number of cells of the playing square.
pub open spec fn cell_count() -> int {
    CELL_SIDE_NUM * CELL_SIDE_NUM
}

/// The cell with row-major number `k`.
pub open spec fn flat_cell(k: int) -> (int, int) {
    (k / CELL_SIDE_NUM as int, k % CELL_SIDE_NUM as int)
}

/// The cells of the playing square in row-major order.
pub open spec fn all_cells() -> Seq<(int, int)> {
    Seq::new(cell_count() as nat, |k: int| flat_cell(k))
}

/// Whether a cell is an empty cell of the playing square.
pub open spec fn empty_cell_of(g: Seq<Seq<u32>>) -> spec_fn((int, int)) -> bool {
    |rc: (int, int)| in_square(rc.0, rc.1) && g[rc.0][rc.1] == 0
}

/// The empty cells of the playing square in row-major order.
pub open spec fn empty_cells(g: Seq<Seq<u32>>) -> Seq<(int, int)> {
    all_cells().filter(empty_cell_of(g))
}

/// Cell positions as pairs of integers.
pub open spec fn positions_view(s: Seq<(usize, usize)>) -> Seq<(int, int)> {
    s.map_values(|p: (usize, usize)| (p.0 as int, p.1 as int))
}

/// `g` with `v` written into cell `(r, c)`.
pub open spec fn with_cell(g: Seq<Seq<u32>>, r: int, c: int, v: u32) -> Seq<Seq<u32>> {
    g.update(r, g[r].update(c, v))
}

/// The starting board: every cell of the square empty but two, which hold 2.
/// The first is cell number `first` in row-major order; the second is number
/// `second` among the cells left after the first is taken out.
pub open spec fn initial_grid(first: int, second: int) -> Seq<Seq<u32>> {
    let a = flat_cell(first);
    let b = flat_cell(if second < first { second } else { second + 1 });
    with_cell(with_cell(crate::board::empty_grid(), a.0, a.1, 2), b.0, b.1, 2)
}

/// The value of a new tile for a roll of a ten-sided die: 4 on a roll of 0,
/// 2 otherwise.
pub open spec fn new_tile_value(roll: int) -> u32 {
    if roll > 0 { 2 } else { 4 }
}

/// `g` with a new tile for the roll `roll` in its `pick`-th empty cell.
pub open spec fn with_new_tile(g: Seq<Seq<u32>>, roll: int, pick: int) -> Seq<Seq<u32>> {
    with_cell(g, empty_cells(g)[pick].0, empty_cells(g)[pick].1, new_tile_value(roll))
}

proof fn lemma_flat_cell(k: int)
    requires
        0 <= k < cell_count(),
    ensures
        in_square(flat_cell(k).0, flat_cell(k).1),
        flat_cell(k).0 * CELL_SIDE_NUM + flat_cell(k).1 == k,
{
}

proof fn lemma_flat_cell_inverse(r: int, c: int)
    requires
        in_square(r, c),
    ensures
        0 <= r * CELL_SIDE_NUM + c < cell_count(),
        flat_cell(r * CELL_SIDE_NUM + c) == (r, c),
{
}

/// An empty cell of the square is among the empty cells listed.
pub proof fn lemma_empty_cell_listed(g: Seq<Seq<u32>>, r: int, c: int)
    requires
        in_square(r, c),
        g[r][c] == 0,
    ensures
        empty_cells(g).contains((r, c)),
        empty_cells(g).len() > 0,
{
    lemma_flat_cell_inverse(r, c);
    let pred = empty_cell_of(g);
    broadcast use vstd::seq_lib::group_filter_ensures;
    assert(all_cells()[r * CELL_SIDE_NUM + c] == (r, c));
    let s = empty_cells(g);
    assert(s.contains((r, c)));
    let j = choose|j: int| 0 <= j < s.len() && s[j] == (r, c);
    assert(0 <= j < s.len());
}

/// Every listed empty cell is an empty cell of the square.
pub proof fn lemma_listed_cell_empty(g: Seq<Seq<u32>>, pick: int)
    requires
        0 <= pick < empty_cells(g).len(),
    ensures
        in_square(empty_cells(g)[pick].0, empty_cells(g)[pick].1),
        g[empty_cells(g)[pick].0][empty_cells(g)[pick].1] == 0,
{
    let pred = empty_cell_of(g);
    broadcast use vstd::seq_lib::group_filter_ensures;
    assert(pred(empty_cells(g)[pick]));
}

/// Writes `v` into cell `(r, c)`.
fn set_cell(board: &mut Vec<Vec<u32>>, r: usize, c: usize, v: u32)
    requires
        holds_board(grid(*old(board))),
        in_square(r as int, c as int),
    ensures
        grid(*final(board)) == with_cell(grid(*old(board)), r as int, c as int, v),
{
    let ghost g = grid(*board);
    let mut row: Vec<u32> = Vec::new();
    let n = board[r].len();
    let mut k: usize = 0;
    while k < n
        invariant
            g == grid(*board),
            holds_board(g),
            in_square(r as int, c as int),
            n == g[r as int].len(),
            k <= n,
            row@ =~= g[r as int].update(c as int, v).take(k as int),
        decreases n - k,
    {
        if k == c {
            row.push(v);
        } else {
            row.push(board[r][k]);
        }
        k = k + 1;
    }
    assert(row@ =~= g[r as int].update(c as int, v));
    board.set(r, row);
    assert(grid(*board) =~= with_cell(g, r as int, c as int, v));
}

/// The board at the start of a game with the random draws `first` and
/// `second` made: all cells empty but the `first`-th cell in row-major order
/// and the `second`-th of the cells that remain, which hold 2.
pub fn initial_board(first: usize, second: usize) -> (board: Vec<Vec<u32>>)
    requires
        first < CELL_SIDE_NUM * CELL_SIDE_NUM,
        second < CELL_SIDE_NUM * CELL_SIDE_NUM - 1,
    ensures
        grid(board) == initial_grid(first as int, second as int),
{
    let mut board: Vec<Vec<u32>> = Vec::new();
    let mut pos_save: Vec<(usize, usize)> = Vec::new();
    let mut i: usize = 0;
    while i < CELL_SIDE_NUM
        invariant
            i <= CELL_SIDE_NUM,
            board@.len() == i,
            grid(board) =~= crate::board::empty_grid().take(i as int),
            pos_save@.len() == i * CELL_SIDE_NUM,
            forall|k: int|
                0 <= k < i * CELL_SIDE_NUM ==> (#[trigger] pos_save@[k]).0 == flat_cell(k).0
                    && pos_save@[k].1 == flat_cell(k).1,
        decreases CELL_SIDE_NUM - i,
    {
        let mut row: Vec<u32> = Vec::new();
        let mut j: usize = 0;
        while j < CELL_SIDE_NUM
            invariant
                i < CELL_SIDE_NUM,
                j <= CELL_SIDE_NUM,
                row@ =~= Seq::new(j as nat, |c: int| 0u32),
                pos_save@.len() == i * CELL_SIDE_NUM + j,
                forall|k: int|
                    0 <= k < i * CELL_SIDE_NUM + j ==> (#[trigger] pos_save@[k]).0 == flat_cell(k).0
                        && pos_save@[k].1 == flat_cell(k).1,
            decreases CELL_SIDE_NUM - j,
        {
            row.push(0);
            pos_save.push((i, j));
            j = j + 1;
        }
        assert(row@ =~= crate::board::empty_grid()[i as int]);
        let ghost prev = board@;
        board.push(row);
        assert(board@[i as int]@ == crate::board::empty_grid()[i as int]);
        assert(forall|q: int| 0 <= q < i ==> board@[q] == prev[q]);
        i = i + 1;
    }
    proof {
        assert(crate::board::empty_grid().take(CELL_SIDE_NUM as int) =~= crate::board::empty_grid());
        lemma_flat_cell(first as int);
    }
    let (r1, c1) = pos_save[first];
    set_cell(&mut board, r1, c1, 2);
    let ghost before = pos_save@;
    pos_save.remove(first);
    let ghost k2: int = if second < first { second as int } else { second + 1 };
    assert(pos_save@[second as int] == before[k2]);
    proof {
        lemma_flat_cell(k2);
    }
    let (r2, c2) = pos_save[second];
    set_cell(&mut board, r2, c2, 2);
    board
}

/// Exactly two cells of the square hold 2, at different places, and all
/// other cells of the square are empty.
pub open spec fn two_starting_tiles(g: Seq<Seq<u32>>) -> bool {
    exists|r1: int, c1: int, r2: int, c2: int|
        {
            &&& in_square(r1, c1)
            &&& in_square(r2, c2)
            &&& (r1, c1) != (r2, c2)
            &&& #[trigger] g[r1][c1] == 2
            &&& #[trigger] g[r2][c2] == 2
            &&& forall|r: int, c: int|
                in_square(r, c) && (r, c) != (r1, c1) && (r, c) != (r2, c2) ==> #[trigger] g[r][c]
                    == 0
        }
}

/// A starting board is square and holds exactly two tiles, both 2.
pub proof fn lemma_initial_grid(first: int, second: int)
    requires
        0 <= first < cell_count(),
        0 <= second < cell_count() - 1,
    ensures
        is_square(initial_grid(first, second)),
        two_starting_tiles(initial_grid(first, second)),
{
    let k2 = if second < first { second } else { second + 1 };
    lemma_flat_cell(first);
    lemma_flat_cell(k2);
    let a = flat_cell(first);
    let b = flat_cell(k2);
    assert(a != b);
    let g = initial_grid(first, second);
    assert(g[a.0][a.1] == 2);
    assert(g[b.0][b.1] == 2);
}

/// Deals the starting board: every cell empty but two random cells, which
/// hold 2.
pub fn init_cell_value_save() -> (board: Vec<Vec<u32>>)
    ensures
        is_square(grid(board)),
        exists|first: int, second: int|
            0 <= first < cell_count() && 0 <= second < cell_count() - 1 && grid(board)
                == #[trigger] initial_grid(first, second),
        two_starting_tiles(grid(board)),
{
    let mut rng = thread_rng();
    let first = gen_index(&mut rng, CELL_SIDE_NUM * CELL_SIDE_NUM);
    let mut rng = thread_rng();
    let second = gen_index(&mut rng, CELL_SIDE_NUM * CELL_SIDE_NUM - 1);
    let board = initial_board(first, second);
    proof {
        lemma_initial_grid(first as int, second as int);
    }
    board
}

/// The empty cells of the playing square in row-major order.
pub fn empty_positions(board: &Vec<Vec<u32>>) -> (pos_save: Vec<(usize, usize)>)
    requires
        holds_board(grid(*board)),
    ensures
        positions_view(pos_save@) == empty_cells(grid(*board)),
{
    let ghost g = grid(*board);
    let ghost pred = empty_cell_of(g);
    let mut pos_save: Vec<(usize, usize)> = Vec::new();
    let mut k: usize = 0;
    assert(all_cells().take(0).filter(pred) =~= Seq::<(int, int)>::empty()) by {
        reveal(Seq::filter);
    }
    while k < CELL_SIDE_NUM * CELL_SIDE_NUM
        invariant
            g == grid(*board),
            pred == empty_cell_of(g),
            holds_board(g),
            k <= CELL_SIDE_NUM * CELL_SIDE_NUM,
            positions_view(pos_save@) =~= all_cells().take(k as int).filter(pred),
        decreases CELL_SIDE_NUM * CELL_SIDE_NUM - k,
    {
        let r = k / CELL_SIDE_NUM;
        let c = k % CELL_SIDE_NUM;
        proof {
            lemma_flat_cell(k as int);
            reveal(Seq::filter);
            assert(all_cells().take(k + 1).drop_last() =~= all_cells().take(k as int));
            assert(all_cells().take(k + 1).last() == (r as int, c as int));
        }
        assert(g[r as int] == board@[r as int]@);
        if board[r][c] == 0 {
            let ghost before = pos_save@;
            pos_save.push((r, c));
            assert(positions_view(pos_save@) =~= positions_view(before).push((r as int, c as int)));
        }
        k = k + 1;
    }
    assert(all_cells().take(cell_count()) =~= all_cells());
    pos_save
}

/// Puts a new tile into the `pick`-th empty cell in row-major order: 4 when
/// `roll` is 0, else 2.
pub fn place_new_tile(board: &mut Vec<Vec<u32>>, roll: usize, pick: usize)
    requires
        holds_board(grid(*old(board))),
        pick < empty_cells(grid(*old(board))).len(),
    ensures
        grid(*final(board)) == with_new_tile(grid(*old(board)), roll as int, pick as int),
{
    let temp: u32 = if roll > 0 {
        2
    } else {
        4
    };
    let pos_save = empty_positions(board);
    proof {
        lemma_listed_cell_empty(grid(*board), pick as int);
    }
    assert(positions_view(pos_save@)[pick as int] == (pos_save@[pick as int].0 as int, pos_save@[pick as int].1 as int));
    let (r, c) = pos_save[pick];
    set_cell(board, r, c, temp);
}

/// The new-tile step puts a 2 or a 4 into a cell of the square that was
/// empty and leaves every other cell, and the shape of the board, as it was.
pub proof fn lemma_new_tile_cell(m: Seq<Seq<u32>>, roll: int, pick: int)
    requires
        holds_board(m),
        0 <= pick < empty_cells(m).len(),
    ensures
        ({
            let (r, c) = empty_cells(m)[pick];
            let g1 = with_new_tile(m, roll, pick);
            &&& in_square(r, c)
            &&& m[r][c] == 0
            &&& g1[r][c] == 2 || g1[r][c] == 4
            &&& g1.len() == m.len()
            &&& forall|q: int| 0 <= q < m.len() ==> (#[trigger] g1[q]).len() == m[q].len()
            &&& forall|q: int, k: int|
                0 <= q < m.len() && 0 <= k < m[q].len() && (q, k) != (r, c) ==> #[trigger] g1[q][k]
                    == m[q][k]
        }),
{
    lemma_listed_cell_empty(m, pick);
}

/// The board after the new-tile step of a move: when the move changed the
/// board `g0` into `m` (which then always has an empty cell), `g1` is `m`
/// with a new tile for some roll below 10 in some empty cell; otherwise `g1`
/// is `m`.
pub open spec fn after_new_tile(g0: Seq<Seq<u32>>, m: Seq<Seq<u32>>, g1: Seq<Seq<u32>>) -> bool {
    if m != g0 {
        exists|roll: int, pick: int|
            0 <= roll < 10 && 0 <= pick < empty_cells(m).len() && g1 == #[trigger] with_new_tile(
                m,
                roll,
                pick,
            )
    } else {
        g1 == m
    }
}

/// Plays one move: pushes the tiles in `direction`, adds the merged tiles to
/// the score, and, when the board changed (and so has an empty cell), puts a
/// new tile into a random empty cell: 4 when a random roll below 10 is 0,
/// else 2. NONE leaves the state as it was.
pub fn move_value(direction: MoveDirection, save_value: &mut CellValueSave)
    requires
        direction == MoveDirection::NONE || move_allowed(
            grid(old(save_value).value_save),
            old(save_value).score,
            direction,
        ),
    ensures
        direction == MoveDirection::NONE ==> *final(save_value) == *old(save_value),
        direction != MoveDirection::NONE ==> final(save_value).score == old(save_value).score
            + move_gain(grid(old(save_value).value_save), direction),
        direction != MoveDirection::NONE ==> after_new_tile(
            grid(old(save_value).value_save),
            moved_grid(grid(old(save_value).value_save), direction),
            grid(final(save_value).value_save),
        ),
{
    let ghost g0 = grid(save_value.value_save);
    let is_move = match direction {
        MoveDirection::NONE => {
            return ;
        },
        MoveDirection::RIGHT => to_right(save_value),
        MoveDirection::LEFT => to_left(save_value),
        MoveDirection::UP => to_up(save_value),
        MoveDirection::DOWN => to_down(save_value),
    };
    let ghost m = grid(save_value.value_save);
    assert(holds_board(m));
    let have_empty = have_empty(&mut save_value.value_save);
    proof {
        if is_move {
            lemma_changed_move_leaves_empty(g0, direction);
        }
    }
    if is_move && have_empty {
        let mut rng = thread_rng();
        let roll = gen_index(&mut rng, 10);
        let pos_save = empty_positions(&save_value.value_save);
        proof {
            let (r, c) = choose|r: int, c: int| in_square(r, c) && #[trigger] m[r][c] == 0;
            lemma_empty_cell_listed(m, r, c);
        }
        let mut rng = thread_rng();
        let pick = gen_index(&mut rng, pos_save.len());
        place_new_tile(&mut save_value.value_save, roll, pick);
        assert(grid(save_value.value_save) == with_new_tile(m, roll as int, pick as int));
    }
}

/// A move followed by its new-tile step keeps every cell of the square empty
/// or a power of two of at least 2.
pub proof fn lemma_turn_keeps_tile_values(
    g0: Seq<Seq<u32>>,
    d: MoveDirection,
    g1: Seq<Seq<u32>>,
)
    requires
        holds_board(g0),
        move_fits(g0, d),
        square_tile_values(g0),
        after_new_tile(g0, moved_grid(g0, d), g1),
    ensures
        square_tile_values(g1),
{
    let m = moved_grid(g0, d);
    crate::moves::lemma_moved_holds_board(g0, d);
    lemma_move_keeps_tile_values(g0, d);
    if m != g0 {
        let (roll, pick) = choose|roll: int, pick: int|
            0 <= roll < 10 && 0 <= pick < empty_cells(m).len() && g1 == #[trigger] with_new_tile(
                m,
                roll,
                pick,
            );
        lemma_new_tile_cell(m, roll, pick);
        assert(is_tile_value(2u32)) by {
            assert(2u32 & ((2u32 - 1) as u32) == 0) by (bit_vector);
        }
        assert(is_tile_value(4u32)) by {
            assert(4u32 & ((4u32 - 1) as u32) == 0) by (bit_vector);
        }
        let (r, c) = empty_cells(m)[pick];
        assert forall|q: int, k: int| in_square(q, k) implies is_tile_value(#[trigger] g1[q][k]) by {
            if (q, k) != (r, c) {
                assert(g1[q][k] == m[q][k]);
            }
        }
    }
}

/// The row-major number of the cell `rc`.
pub open spec fn cell_number(rc: (int, int)) -> int {
    rc.0 * CELL_SIDE_NUM + rc.1
}

proof fn lemma_empty_cells_sorted_upto(g: Seq<Seq<u32>>, k: int)
    requires
        0 <= k <= cell_count(),
    ensures
        ({
            let f = all_cells().take(k).filter(empty_cell_of(g));
            &&& forall|p: int, q: int|
                0 <= p < q < f.len() ==> cell_number(#[trigger] f[p]) < cell_number(#[trigger] f[q])
            &&& forall|p: int| 0 <= p < f.len() ==> 0 <= #[trigger] cell_number(f[p]) < k
        }),
    decreases k,
{
    reveal(Seq::filter);
    let pred = empty_cell_of(g);
    if k == 0 {
        assert(all_cells().take(0) =~= Seq::<(int, int)>::empty());
    } else {
        lemma_empty_cells_sorted_upto(g, k - 1);
        lemma_flat_cell(k - 1);
        let t = all_cells().take(k);
        assert(t.drop_last() =~= all_cells().take(k - 1));
        assert(t.last() == flat_cell(k - 1));
        let f0 = all_cells().take(k - 1).filter(pred);
        let f = t.filter(pred);
        assert(cell_number(flat_cell(k - 1)) == k - 1);
        if pred(t.last()) {
            assert(f == f0.push(t.last()));
            assert forall|p: int, q: int| 0 <= p < q < f.len() implies cell_number(#[trigger] f[p])
                < cell_number(#[trigger] f[q]) by {
                if q < f0.len() {
                    assert(f[p] == f0[p] && f[q] == f0[q]);
                } else {
                    assert(f[p] == f0[p]);
                }
            }
            assert forall|p: int| 0 <= p < f.len() implies 0 <= #[trigger] cell_number(f[p]) < k by {
                if p < f0.len() {
                    assert(f[p] == f0[p]);
                }
            }
        } else {
            assert(f == f0);
        }
    }
}

/// The empty cells are listed each once, in row-major order; every listed
/// cell is an empty cell of the square, and every empty cell of the square is
/// listed. So the `pick`-th entry is the empty cell with exactly `pick` empty
/// cells before it, and each empty cell is the entry of exactly one pick.
pub proof fn lemma_empty_cells_order(g: Seq<Seq<u32>>)
    ensures
        forall|p: int, q: int|
            0 <= p < q < empty_cells(g).len() ==> cell_number(#[trigger] empty_cells(g)[p])
                < cell_number(#[trigger] empty_cells(g)[q]),
        forall|p: int|
            0 <= p < empty_cells(g).len() ==> in_square(#[trigger] empty_cells(g)[p].0, empty_cells(g)[p].1)
                && g[empty_cells(g)[p].0][empty_cells(g)[p].1] == 0,
        forall|r: int, c: int|
            in_square(r, c) && #[trigger] g[r][c] == 0 ==> exists|p: int|
                0 <= p < empty_cells(g).len() && #[trigger] empty_cells(g)[p] == (r, c),
{
    lemma_empty_cells_sorted_upto(g, cell_count());
    assert(all_cells().take(cell_count()) =~= all_cells());
    assert forall|p: int| 0 <= p < empty_cells(g).len() implies in_square(
        #[trigger] empty_cells(g)[p].0,
        empty_cells(g)[p].1,
    ) && g[empty_cells(g)[p].0][empty_cells(g)[p].1] == 0 by {
        lemma_listed_cell_empty(g, p);
    }
    assert forall|r: int, c: int| in_square(r, c) && #[trigger] g[r][c] == 0 implies exists|p: int|
        0 <= p < empty_cells(g).len() && #[trigger] empty_cells(g)[p] == (r, c) by {
        lemma_empty_cell_listed(g, r, c);
    }
}

/// The new tile goes into the `pick`-th empty cell in row-major order, and it
/// is a 4 when `roll` is 0 and a 2 otherwise. Every empty cell can receive it:
/// for each empty cell some pick puts the tile there.
pub proof fn lemma_new_tile_placement(m: Seq<Seq<u32>>, roll: int, pick: int)
    requires
        holds_board(m),
        0 <= roll,
        0 <= pick < empty_cells(m).len(),
    ensures
        with_new_tile(m, roll, pick)[empty_cells(m)[pick].0][empty_cells(m)[pick].1] == (if roll
            == 0 {
            4u32
        } else {
            2u32
        }),
        forall|r: int, c: int|
            in_square(r, c) && #[trigger] m[r][c] == 0 ==> exists|p: int|
                0 <= p < empty_cells(m).len() && #[trigger] with_new_tile(m, roll, p)[r][c] != 0,
{
    lemma_listed_cell_empty(m, pick);
    lemma_empty_cells_order(m);
    assert forall|r: int, c: int| in_square(r, c) && #[trigger] m[r][c] == 0 implies exists|p: int|
        0 <= p < empty_cells(m).len() && #[trigger] with_new_tile(m, roll, p)[r][c] != 0 by {
        let p = choose|p: int| 0 <= p < empty_cells(m).len() && #[trigger] empty_cells(m)[p] == (r, c);
        assert(with_new_tile(m, roll, p)[r][c] != 0);
    }
}

/// The starting board puts its first 2 on cell number `first` in row-major
/// order, and its second on cell number `second` when that lies before the
/// first, else on number `second + 1`: the `second`-th of the cells left.
/// Every two different cells of the square can be dealt.
pub proof fn lemma_initial_grid_cells(first: int, second: int)
    requires
        0 <= first < cell_count(),
        0 <= second < cell_count() - 1,
    ensures
        initial_grid(first, second)[first / CELL_SIDE_NUM as int][first % CELL_SIDE_NUM as int]
            == 2,
        ({
            let k = if second < first { second } else { second + 1 };
            initial_grid(first, second)[k / CELL_SIDE_NUM as int][k % CELL_SIDE_NUM as int] == 2
        }),
        forall|r1: int, c1: int, r2: int, c2: int|
            in_square(r1, c1) && in_square(r2, c2) && (r1, c1) != (r2, c2) ==> exists|a: int, b: int|
                0 <= a < cell_count() && 0 <= b < cell_count() - 1 && #[trigger] initial_grid(a, b)[r1][c1]
                    == 2 && initial_grid(a, b)[r2][c2] == 2,
{
    lemma_flat_cell(first);
    let k = if second < first { second } else { second + 1 };
    lemma_flat_cell(k);
    assert forall|r1: int, c1: int, r2: int, c2: int|
        in_square(r1, c1) && in_square(r2, c2) && (r1, c1) != (r2, c2) implies exists|a: int, b: int|
        0 <= a < cell_count() && 0 <= b < cell_count() - 1 && #[trigger] initial_grid(a, b)[r1][c1] == 2
            && initial_grid(a, b)[r2][c2] == 2 by {
        lemma_flat_cell_inverse(r1, c1);
        lemma_flat_cell_inverse(r2, c2);
        let a = r1 * CELL_SIDE_NUM + c1;
        let n2 = r2 * CELL_SIDE_NUM + c2;
        let b = if n2 < a { n2 } else { n2 - 1 };
        assert(n2 != a);
        assert(initial_grid(a, b)[r1][c1] == 2);
        assert(initial_grid(a, b)[r2][c2] == 2);
    }
}

} // verus!
