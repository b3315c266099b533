use vstd::prelude::*;
use crate::board::{grid, holds_board, in_square, CellValueSave, MoveDirection, VictoryState, CELL_SIDE_NUM, WINNING_VALUE};
use crate::line::{has_equal_neighbours, lemma_slide_changes, lemma_slide_fixed};
use crate::moves::{lemma_moved_line, lemma_moved_unchanged, line_cell, line_of, move_fits, moved_grid};

verus! {

/// Some cell of the playing square holds `v`.
pub open spec fn has_value(g: Seq<Seq<u32>>, v: u32) -> bool {
    exists|r: int, c: int| in_square(r, c) && #[trigger] g[r][c] == v
}

/// The cell `(r, c)` equals its neighbour to the right or its neighbour
/// below, where that neighbour lies in the playing square.
pub open spec fn pair_at(g: Seq<Seq<u32>>, r: int, c: int) -> bool {
    ||| c < CELL_SIDE_NUM - 1 && g[r][c] == g[r][c + 1]
    ||| r < CELL_SIDE_NUM - 1 && g[r][c] == g[r + 1][c]
}

/// Two neighbouring cells of the playing square, side by side or one above
/// the other, hold equal values.
pub open spec fn has_equal_pair(g: Seq<Seq<u32>>) -> bool {
    exists|r: int, c: int| in_square(r, c) && #[trigger] pair_at(g, r, c)
}

/// The verdict on a board: a winning tile wins; otherwise an empty cell or
/// a pair of equal neighbours lets the game go on; otherwise the player has
/// lost.
pub open spec fn game_result(g: Seq<Seq<u32>>) -> VictoryState {
    if has_value(g, WINNING_VALUE) {
        VictoryState::VICTORY
    } else if has_value(g, 0) {
        VictoryState::NONE
    } else if has_equal_pair(g) {
        VictoryState::NONE
    } else {
        VictoryState::DEFEAT
    }
}

/// Whether some cell of the playing square holds `v`.
fn find_value(board: &Vec<Vec<u32>>, v: u32) -> (found: bool)
    requires
        holds_board(grid(*board)),
    ensures
        found == has_value(grid(*board), v),
{
    let ghost g = grid(*board);
    let mut i: usize = 0;
    while i < CELL_SIDE_NUM
        invariant
            g == grid(*board),
            holds_board(g),
            i <= CELL_SIDE_NUM,
            forall|r: int, c: int| 0 <= r < i && 0 <= c < CELL_SIDE_NUM ==> #[trigger] g[r][c] != v,
        decreases CELL_SIDE_NUM - i,
    {
        let mut j: usize = 0;
        while j < CELL_SIDE_NUM
            invariant
                g == grid(*board),
                holds_board(g),
                i < CELL_SIDE_NUM,
                j <= CELL_SIDE_NUM,
                forall|r: int, c: int| 0 <= r < i && 0 <= c < CELL_SIDE_NUM ==> #[trigger] g[r][c] != v,
                forall|c: int| 0 <= c < j ==> #[trigger] g[i as int][c] != v,
            decreases CELL_SIDE_NUM - j,
        {
            assert(g[i as int] == board@[i as int]@);
            if board[i][j] == v {
                assert(g[i as int][j as int] == v);
                return true;
            }
            j = j + 1;
        }
        i = i + 1;
    }
    false
}

/// Whether two neighbouring cells of the playing square hold equal values.
fn find_equal_pair(board: &Vec<Vec<u32>>) -> (found: bool)
    requires
        holds_board(grid(*board)),
    ensures
        found == has_equal_pair(grid(*board)),
{
    let ghost g = grid(*board);
    let mut i: usize = 0;
    while i < CELL_SIDE_NUM
        invariant
            g == grid(*board),
            holds_board(g),
            i <= CELL_SIDE_NUM,
            forall|r: int, c: int| 0 <= r < i && 0 <= c < CELL_SIDE_NUM ==> !#[trigger] pair_at(g, r, c),
        decreases CELL_SIDE_NUM - i,
    {
        let mut j: usize = 0;
        while j < CELL_SIDE_NUM
            invariant
                g == grid(*board),
                holds_board(g),
                i < CELL_SIDE_NUM,
                j <= CELL_SIDE_NUM,
                forall|r: int, c: int|
                    0 <= r < i && 0 <= c < CELL_SIDE_NUM ==> !#[trigger] pair_at(g, r, c),
                forall|c: int| 0 <= c < j ==> !#[trigger] pair_at(g, i as int, c),
            decreases CELL_SIDE_NUM - j,
        {
            assert(g[i as int] == board@[i as int]@);
            if j + 1 < CELL_SIDE_NUM && board[i][j] == board[i][j + 1] {
                assert(pair_at(g, i as int, j as int));
                return true;
            }
            if i + 1 < CELL_SIDE_NUM {
                assert(g[i + 1] == board@[i + 1]@);
                if board[i][j] == board[i + 1][j] {
                    assert(pair_at(g, i as int, j as int));
                    return true;
                }
            }
            j = j + 1;
        }
        i = i + 1;
    }
    false
}

/// The verdict, cell by cell: VICTORY exactly when some cell of the square,
/// the last row and column included, holds 2048; DEFEAT exactly when no cell
/// holds 2048 or is empty and no two cells side by side or one above the
/// other are equal; NONE otherwise.
pub proof fn lemma_verdict(g: Seq<Seq<u32>>)
    ensures
        (game_result(g) == VictoryState::VICTORY) == (exists|r: int, c: int|
            0 <= r < CELL_SIDE_NUM && 0 <= c < CELL_SIDE_NUM && #[trigger] g[r][c] == 2048),
        (game_result(g) == VictoryState::DEFEAT) == ({
            &&& forall|r: int, c: int|
                0 <= r < CELL_SIDE_NUM && 0 <= c < CELL_SIDE_NUM ==> #[trigger] g[r][c] != 2048
                    && g[r][c] != 0
            &&& forall|r: int, c: int|
                0 <= r < CELL_SIDE_NUM && 0 <= c < CELL_SIDE_NUM - 1 ==> #[trigger] g[r][c]
                    != g[r][c + 1]
            &&& forall|r: int, c: int|
                0 <= r < CELL_SIDE_NUM - 1 && 0 <= c < CELL_SIDE_NUM ==> #[trigger] g[r][c]
                    != g[r + 1][c]
        }),
        game_result(g) == VictoryState::VICTORY || game_result(g) == VictoryState::NONE
            || game_result(g) == VictoryState::DEFEAT,
{
    if game_result(g) == VictoryState::DEFEAT {
        lemma_neighbours_differ(g);
    }
    let pairs_differ = (forall|r: int, c: int|
        0 <= r < CELL_SIDE_NUM && 0 <= c < CELL_SIDE_NUM - 1 ==> #[trigger] g[r][c] != g[r][c + 1])
        && (forall|r: int, c: int|
        0 <= r < CELL_SIDE_NUM - 1 && 0 <= c < CELL_SIDE_NUM ==> #[trigger] g[r][c] != g[r + 1][c]);
    if pairs_differ {
        assert forall|r: int, c: int| in_square(r, c) implies !#[trigger] pair_at(g, r, c) by {
            if c < CELL_SIDE_NUM - 1 {
                assert(g[r][c] != g[r][c + 1]);
            }
            if r < CELL_SIDE_NUM - 1 {
                assert(g[r][c] != g[r + 1][c]);
            }
        }
    }
}

/// Judges the game: VICTORY when a cell holds the winning value; otherwise
/// NONE when a cell is empty or two neighbouring cells are equal, so that a
/// move can still change the board;
/// otherwise DEFEAT. The state is left as it was.
pub fn check_result(save_value: &mut CellValueSave) -> (state: VictoryState)
    requires
        holds_board(grid(old(save_value).value_save)),
    ensures
        *final(save_value) == *old(save_value),
        state == game_result(grid(old(save_value).value_save)),
        (state == VictoryState::VICTORY) == (exists|r: int, c: int|
            0 <= r < CELL_SIDE_NUM && 0 <= c < CELL_SIDE_NUM && #[trigger] grid(
                old(save_value).value_save,
            )[r][c] == 2048),
        (state == VictoryState::DEFEAT) == ({
            let g = grid(old(save_value).value_save);
            &&& forall|r: int, c: int|
                0 <= r < CELL_SIDE_NUM && 0 <= c < CELL_SIDE_NUM ==> #[trigger] g[r][c] != 2048
                    && g[r][c] != 0
            &&& forall|r: int, c: int|
                0 <= r < CELL_SIDE_NUM && 0 <= c < CELL_SIDE_NUM - 1 ==> #[trigger] g[r][c]
                    != g[r][c + 1]
            &&& forall|r: int, c: int|
                0 <= r < CELL_SIDE_NUM - 1 && 0 <= c < CELL_SIDE_NUM ==> #[trigger] g[r][c]
                    != g[r + 1][c]
        }),
{
    proof {
        lemma_verdict(grid(save_value.value_save));
    }
    if find_value(&save_value.value_save, WINNING_VALUE) {
        return VictoryState::VICTORY;
    }
    if find_value(&save_value.value_save, 0) {
        return VictoryState::NONE;
    }
    if find_equal_pair(&save_value.value_save) {
        return VictoryState::NONE;
    }
    VictoryState::DEFEAT
}

/// Whether some cell of the playing square is empty. The board is left as
/// it was.
pub fn have_empty(save_value: &mut Vec<Vec<u32>>) -> (empty: bool)
    requires
        holds_board(grid(*old(save_value))),
    ensures
        *final(save_value) == *old(save_value),
        empty == has_value(grid(*old(save_value)), 0),
{
    find_value(save_value, 0)
}

/// Some cell of the playing square holds a tile.
pub open spec fn has_tile(g: Seq<Seq<u32>>) -> bool {
    exists|r: int, c: int| in_square(r, c) && #[trigger] g[r][c] != 0
}

proof fn lemma_neighbours_differ(g: Seq<Seq<u32>>)
    requires
        !has_equal_pair(g),
    ensures
        forall|r: int, c: int|
            0 <= r < CELL_SIDE_NUM && 0 <= c < CELL_SIDE_NUM - 1 ==> #[trigger] g[r][c] != g[r][c + 1],
        forall|r: int, c: int|
            0 <= r < CELL_SIDE_NUM - 1 && 0 <= c < CELL_SIDE_NUM ==> #[trigger] g[r][c] != g[r + 1][c],
{
    assert forall|r: int, c: int| 0 <= r < CELL_SIDE_NUM && 0 <= c < CELL_SIDE_NUM - 1 implies #[trigger] g[r][c]
        != g[r][c + 1] by {
        assert(!pair_at(g, r, c));
    }
    assert forall|r: int, c: int| 0 <= r < CELL_SIDE_NUM - 1 && 0 <= c < CELL_SIDE_NUM implies #[trigger] g[r][c]
        != g[r + 1][c] by {
        assert(!pair_at(g, r, c));
    }
}

/// When the game is judged lost, no move changes the board: the player is
/// stuck.
pub proof fn lemma_defeat_is_final(g: Seq<Seq<u32>>, d: MoveDirection)
    requires
        holds_board(g),
        game_result(g) == VictoryState::DEFEAT,
    ensures
        moved_grid(g, d) == g,
{
    lemma_neighbours_differ(g);
    assert forall|i: int| 0 <= i < CELL_SIDE_NUM implies #[trigger] crate::line::slide(line_of(g, d, i))
        == line_of(g, d, i) by {
        let s = line_of(g, d, i);
        assert forall|k: int| 0 <= k < s.len() implies s[k] != 0 by {
            let (r, c) = crate::moves::line_cell(d, i, k);
            if g[r][c] == 0 {
                assert(in_square(r, c) && g[r][c] == 0);
                assert(has_value(g, 0));
            }
        }
        assert forall|k: int| 0 <= k < s.len() - 1 implies #[trigger] s[k] != s[k + 1] by {
            let last = CELL_SIDE_NUM - 1;
            match d {
                MoveDirection::RIGHT => {
                    assert(g[i][last - k - 1] != g[i][(last - k - 1) + 1]);
                },
                MoveDirection::UP => {
                    assert(g[k][i] != g[k + 1][i]);
                },
                MoveDirection::DOWN => {
                    assert(g[last - k - 1][i] != g[(last - k - 1) + 1][i]);
                },
                _ => {
                    assert(g[i][k] != g[i][k + 1]);
                },
            }
        }
        lemma_slide_fixed(s);
    }
    lemma_moved_unchanged(g, d);
}

/// A move in direction `d` changes the board when line `i` holds an empty
/// cell before a tile.
proof fn lemma_gap_moves(g: Seq<Seq<u32>>, d: MoveDirection, i: int, p: int, q: int)
    requires
        holds_board(g),
        move_fits(g, d),
        0 <= i < CELL_SIDE_NUM,
        0 <= p < q < CELL_SIDE_NUM,
        line_of(g, d, i)[p] == 0,
        line_of(g, d, i)[q] != 0,
    ensures
        moved_grid(g, d) != g,
{
    let s = line_of(g, d, i);
    assert(s[p] == 0 && s[q] != 0);
    lemma_slide_changes(s);
    lemma_moved_unchanged(g, d);
}

/// A move in direction `d` changes the board when line `i` is full and holds
/// two equal neighbours.
proof fn lemma_pair_moves(g: Seq<Seq<u32>>, d: MoveDirection, i: int, k: int)
    requires
        holds_board(g),
        move_fits(g, d),
        0 <= i < CELL_SIDE_NUM,
        0 <= k < CELL_SIDE_NUM - 1,
        !has_value(g, 0),
        line_of(g, d, i)[k] == line_of(g, d, i)[k + 1],
    ensures
        moved_grid(g, d) != g,
{
    let s = line_of(g, d, i);
    assert(has_equal_neighbours(s));
    assert forall|j: int| 0 <= j < s.len() implies s[j] != 0 by {
        let (r, c) = crate::moves::line_cell(d, i, j);
        if g[r][c] == 0 {
            assert(in_square(r, c) && g[r][c] == 0);
        }
    }
    lemma_slide_changes(s);
    lemma_moved_unchanged(g, d);
}

/// When the game goes on (NONE) and the square holds a tile, some move
/// changes the board.
pub proof fn lemma_none_can_move(g: Seq<Seq<u32>>)
    requires
        holds_board(g),
        game_result(g) == VictoryState::NONE,
        has_tile(g),
        move_fits(g, MoveDirection::UP),
        move_fits(g, MoveDirection::DOWN),
        move_fits(g, MoveDirection::LEFT),
        move_fits(g, MoveDirection::RIGHT),
    ensures
        exists|d: MoveDirection| d != MoveDirection::NONE && #[trigger] moved_grid(g, d) != g,
{
    let last = CELL_SIDE_NUM - 1;
    if has_value(g, 0) {
        let (r, c) = choose|r: int, c: int| in_square(r, c) && #[trigger] g[r][c] == 0;
        let (r2, c2) = choose|r: int, c: int| in_square(r, c) && #[trigger] g[r][c] != 0;
        if r2 != r && g[r][c2] == 0 {
            if r < r2 {
                assert(line_of(g, MoveDirection::UP, c2)[r] == g[r][c2]);
                assert(line_of(g, MoveDirection::UP, c2)[r2] == g[r2][c2]);
                lemma_gap_moves(g, MoveDirection::UP, c2, r, r2);
                assert(moved_grid(g, MoveDirection::UP) != g);
            } else {
                assert(line_of(g, MoveDirection::DOWN, c2)[last - r] == g[r][c2]);
                assert(line_of(g, MoveDirection::DOWN, c2)[last - r2] == g[r2][c2]);
                lemma_gap_moves(g, MoveDirection::DOWN, c2, last - r, last - r2);
                assert(moved_grid(g, MoveDirection::DOWN) != g);
            }
        } else {
            // Row r holds the empty cell (r, c) and a tile at (r, t).
            let t = c2;
            assert(g[r][t] != 0);
            if c < t {
                assert(line_of(g, MoveDirection::LEFT, r)[c] == g[r][c]);
                assert(line_of(g, MoveDirection::LEFT, r)[t] == g[r][t]);
                lemma_gap_moves(g, MoveDirection::LEFT, r, c, t);
                assert(moved_grid(g, MoveDirection::LEFT) != g);
            } else {
                assert(line_of(g, MoveDirection::RIGHT, r)[last - c] == g[r][c]);
                assert(line_of(g, MoveDirection::RIGHT, r)[last - t] == g[r][t]);
                lemma_gap_moves(g, MoveDirection::RIGHT, r, last - c, last - t);
                assert(moved_grid(g, MoveDirection::RIGHT) != g);
            }
        }
    } else {
        assert(has_equal_pair(g));
        let (r, c) = choose|r: int, c: int| in_square(r, c) && #[trigger] pair_at(g, r, c);
        if r < CELL_SIDE_NUM - 1 && g[r][c] == g[r + 1][c] {
            assert(line_of(g, MoveDirection::UP, c)[r] == g[r][c]);
            assert(line_of(g, MoveDirection::UP, c)[r + 1] == g[r + 1][c]);
            lemma_pair_moves(g, MoveDirection::UP, c, r);
            assert(moved_grid(g, MoveDirection::UP) != g);
        } else {
            assert(line_of(g, MoveDirection::LEFT, r)[c] == g[r][c]);
            assert(line_of(g, MoveDirection::LEFT, r)[c + 1] == g[r][c + 1]);
            lemma_pair_moves(g, MoveDirection::LEFT, r, c);
            assert(moved_grid(g, MoveDirection::LEFT) != g);
        }
    }
}

/// Unless a tile has reached the winning value, the game is judged lost
/// exactly when no move changes the board (on a board that holds a tile and
/// on which no move overflows).
pub proof fn lemma_defeat_iff_stuck(g: Seq<Seq<u32>>)
    requires
        holds_board(g),
        !has_value(g, WINNING_VALUE),
        has_tile(g),
        move_fits(g, MoveDirection::UP),
        move_fits(g, MoveDirection::DOWN),
        move_fits(g, MoveDirection::LEFT),
        move_fits(g, MoveDirection::RIGHT),
    ensures
        (game_result(g) == VictoryState::DEFEAT) <==> (forall|d: MoveDirection|
            d != MoveDirection::NONE ==> #[trigger] moved_grid(g, d) == g),
{
    if game_result(g) == VictoryState::DEFEAT {
        assert forall|d: MoveDirection| d != MoveDirection::NONE implies #[trigger] moved_grid(g, d) == g by {
            lemma_defeat_is_final(g, d);
        }
    } else {
        lemma_none_can_move(g);
    }
}

/// A move that changes the board leaves an empty cell in the square, so the
/// new-tile step after it always finds a place.
pub proof fn lemma_changed_move_leaves_empty(g: Seq<Seq<u32>>, d: MoveDirection)
    requires
        holds_board(g),
        moved_grid(g, d) != g,
    ensures
        has_value(moved_grid(g, d), 0),
{
    lemma_moved_unchanged(g, d);
    let i = choose|i: int|
        0 <= i < CELL_SIDE_NUM && #[trigger] crate::line::slide(line_of(g, d, i)) != line_of(g, d, i);
    let s = line_of(g, d, i);
    crate::line::lemma_changed_slide_ends_empty(s);
    lemma_moved_line(g, d, i);
    let last = CELL_SIDE_NUM - 1;
    let (r, c) = line_cell(d, i, last as int);
    assert(line_of(moved_grid(g, d), d, i)[last as int] == 0);
    assert(in_square(r, c) && moved_grid(g, d)[r][c] == 0);
}

} // verus!
