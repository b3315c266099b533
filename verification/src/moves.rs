use vstd::prelude::*;
use crate::board::{grid, holds_board, in_square, CellValueSave, MoveDirection, CELL_SIDE_NUM};
use crate::line::{
    all_tile_values, compress, is_tile_value, lemma_compress_step, lemma_merge_two,
    lemma_slide_keeps_tiles, lemma_slide_len, lemma_slide_settled, lemma_slide_sum,
    lemma_still_slide_scores_nothing, line_sum, merge_fits, merge_gain, slide, slide_fits,
    slide_gain, slide_line,
};

verus! {

/// The cell `(row, column)` at position `p` of line `i` for a move in
/// direction `d`. Lines are rows for LEFT and RIGHT and columns for UP and
/// DOWN; position 0 is the cell at the edge the tiles move toward.
pub open spec fn line_cell(d: MoveDirection, i: int, p: int) -> (int, int) {
    let last = CELL_SIDE_NUM - 1;
    match d {
        MoveDirection::RIGHT => (i, last - p),
        MoveDirection::UP => (p, i),
        MoveDirection::DOWN => (last - p, i),
        _ => (i, p),
    }
}

/// The line and position of cell `(r, c)`: the inverse of `line_cell`.
pub open spec fn line_index(d: MoveDirection, r: int, c: int) -> (int, int) {
    let last = CELL_SIDE_NUM - 1;
    match d {
        MoveDirection::RIGHT => (r, last - c),
        MoveDirection::UP => (c, r),
        MoveDirection::DOWN => (c, last - r),
        _ => (r, c),
    }
}

/// Line `i` of the board for a move in direction `d`.
pub open spec fn line_of(g: Seq<Seq<u32>>, d: MoveDirection, i: int) -> Seq<u32> {
    Seq::new(
        CELL_SIDE_NUM as nat,
        |p: int| g[line_cell(d, i, p).0][line_cell(d, i, p).1],
    )
}

/// The board after pushing every tile in direction `d`: each line of the
/// playing square slides toward its front edge; cells outside the square
/// keep their values.
pub open spec fn moved_grid(g: Seq<Seq<u32>>, d: MoveDirection) -> Seq<Seq<u32>> {
    Seq::new(
        g.len(),
        |r: int|
            Seq::new(
                g[r].len(),
                |c: int|
                    if in_square(r, c) {
                        slide(line_of(g, d, line_index(d, r, c).0))[line_index(d, r, c).1]
                    } else {
                        g[r][c]
                    },
            ),
    )
}

/// The points scored by the first `k` lines of a move.
pub open spec fn gain_upto(g: Seq<Seq<u32>>, d: MoveDirection, k: nat) -> nat
    decreases k,
{
    if k == 0 {
        0
    } else {
        gain_upto(g, d, (k - 1) as nat) + slide_gain(line_of(g, d, k - 1))
    }
}

/// The points a move scores are the points of its lines, each line counted
/// once.
pub proof fn lemma_move_gain_lines(g: Seq<Seq<u32>>, d: MoveDirection)
    ensures
        move_gain(g, d) == slide_gain(line_of(g, d, 0)) + slide_gain(line_of(g, d, 1)) + slide_gain(
            line_of(g, d, 2),
        ) + slide_gain(line_of(g, d, 3)),
{
    reveal_with_fuel(gain_upto, 5);
}

/// The points a move in direction `d` scores: the sum of the merged tiles.
pub open spec fn move_gain(g: Seq<Seq<u32>>, d: MoveDirection) -> nat {
    gain_upto(g, d, CELL_SIDE_NUM as nat)
}

/// No merged tile of a move in direction `d` overflows a `u32`.
pub open spec fn move_fits(g: Seq<Seq<u32>>, d: MoveDirection) -> bool {
    forall|i: int| 0 <= i < CELL_SIDE_NUM ==> slide_fits(#[trigger] line_of(g, d, i))
}

/// A move in direction `d` can be made without any arithmetic overflow, on
/// the tiles or on the score.
pub open spec fn move_allowed(g: Seq<Seq<u32>>, score: u32, d: MoveDirection) -> bool {
    &&& holds_board(g)
    &&& move_fits(g, d)
    &&& score + move_gain(g, d) <= u32::MAX
}

proof fn lemma_gain_monotone(g: Seq<Seq<u32>>, d: MoveDirection, j: nat, k: nat)
    requires
        j <= k,
    ensures
        gain_upto(g, d, j) <= gain_upto(g, d, k),
    decreases k,
{
    if j < k {
        lemma_gain_monotone(g, d, j, (k - 1) as nat);
    }
}

fn cell_position(d: MoveDirection, i: usize, p: usize) -> (rc: (usize, usize))
    requires
        i < CELL_SIDE_NUM,
        p < CELL_SIDE_NUM,
    ensures
        rc.0 == line_cell(d, i as int, p as int).0,
        rc.1 == line_cell(d, i as int, p as int).1,
        in_square(rc.0 as int, rc.1 as int),
{
    let last = CELL_SIDE_NUM - 1;
    match d {
        MoveDirection::RIGHT => (i, last - p),
        MoveDirection::UP => (p, i),
        MoveDirection::DOWN => (last - p, i),
        _ => (i, p),
    }
}

fn line_position(d: MoveDirection, r: usize, c: usize) -> (ip: (usize, usize))
    requires
        in_square(r as int, c as int),
    ensures
        ip.0 == line_index(d, r as int, c as int).0,
        ip.1 == line_index(d, r as int, c as int).1,
        in_square(ip.0 as int, ip.1 as int),
{
    let last = CELL_SIDE_NUM - 1;
    match d {
        MoveDirection::RIGHT => (r, last - c),
        MoveDirection::UP => (c, r),
        MoveDirection::DOWN => (c, last - r),
        _ => (r, c),
    }
}

fn read_line(board: &Vec<Vec<u32>>, d: MoveDirection, i: usize) -> (line: Vec<u32>)
    requires
        holds_board(grid(*board)),
        i < CELL_SIDE_NUM,
    ensures
        line@ == line_of(grid(*board), d, i as int),
{
    let mut line: Vec<u32> = Vec::new();
    let mut p: usize = 0;
    while p < CELL_SIDE_NUM
        invariant
            holds_board(grid(*board)),
            i < CELL_SIDE_NUM,
            p <= CELL_SIDE_NUM,
            line@.len() == p,
            forall|q: int| 0 <= q < p ==> #[trigger] line@[q] == line_of(grid(*board), d, i as int)[q],
        decreases CELL_SIDE_NUM - p,
    {
        let (r, c) = cell_position(d, i, p);
        assert(grid(*board)[r as int] == board@[r as int]@);
        line.push(board[r][c]);
        p = p + 1;
    }
    assert(line@ =~= line_of(grid(*board), d, i as int));
    line
}

/// Pushes every tile of the board in direction `d`, adding the merged tiles
/// to the score; returns whether any cell changed.
fn shift_board(save_value: &mut CellValueSave, d: MoveDirection) -> (is_move: bool)
    requires
        move_allowed(grid(old(save_value).value_save), old(save_value).score, d),
    ensures
        grid(final(save_value).value_save) == moved_grid(grid(old(save_value).value_save), d),
        final(save_value).score == old(save_value).score + move_gain(
            grid(old(save_value).value_save),
            d,
        ),
        is_move == (grid(final(save_value).value_save) != grid(old(save_value).value_save)),
        !is_move ==> final(save_value).score == old(save_value).score,
        final(save_value).score == old(save_value).score + slide_gain(
            line_of(grid(old(save_value).value_save), d, 0),
        ) + slide_gain(line_of(grid(old(save_value).value_save), d, 1)) + slide_gain(
            line_of(grid(old(save_value).value_save), d, 2),
        ) + slide_gain(line_of(grid(old(save_value).value_save), d, 3)),
{
    let ghost g = grid(save_value.value_save);
    proof {
        lemma_move_gain_lines(g, d);
    }
    let ghost score0 = save_value.score;
    let mut lines: Vec<Vec<u32>> = Vec::new();
    let mut i: usize = 0;
    while i < CELL_SIDE_NUM
        invariant
            g == grid(save_value.value_save),
            move_allowed(g, score0, d),
            i <= CELL_SIDE_NUM,
            save_value.score == score0 + gain_upto(g, d, i as nat),
            lines@.len() == i,
            forall|k: int| 0 <= k < i ==> (#[trigger] lines@[k])@ == slide(line_of(g, d, k)),
        decreases CELL_SIDE_NUM - i,
    {
        let line = read_line(&save_value.value_save, d, i);
        proof {
            lemma_gain_monotone(g, d, (i + 1) as nat, CELL_SIDE_NUM as nat);
        }
        let (out, gained) = slide_line(&line);
        save_value.score = save_value.score + gained;
        lines.push(out);
        i = i + 1;
    }
    let ghost target = moved_grid(g, d);
    let mut is_move = false;
    let mut r: usize = 0;
    while r < CELL_SIDE_NUM
        invariant
            holds_board(g),
            target == moved_grid(g, d),
            save_value.score == score0 + move_gain(g, d),
            r <= CELL_SIDE_NUM,
            save_value.value_save@.len() == g.len(),
            lines@.len() == CELL_SIDE_NUM,
            forall|k: int| 0 <= k < CELL_SIDE_NUM ==> (#[trigger] lines@[k])@ == slide(line_of(g, d, k)),
            forall|q: int| 0 <= q < r ==> (#[trigger] save_value.value_save@[q])@ == target[q],
            forall|q: int| r <= q < g.len() ==> (#[trigger] save_value.value_save@[q])@ == g[q],
            is_move == exists|q: int| 0 <= q < r && target[q] != g[q],
        decreases CELL_SIDE_NUM - r,
    {
        let old_len = save_value.value_save[r].len();
        let mut row: Vec<u32> = Vec::new();
        let mut c: usize = 0;
        while c < old_len
            invariant
                holds_board(g),
                target == moved_grid(g, d),
                r < CELL_SIDE_NUM,
                save_value.value_save@.len() == g.len(),
                old_len == g[r as int].len(),
                save_value.value_save@[r as int]@ == g[r as int],
                c <= old_len,
                row@.len() == c,
                lines@.len() == CELL_SIDE_NUM,
                forall|k: int| 0 <= k < CELL_SIDE_NUM ==> (#[trigger] lines@[k])@ == slide(line_of(g, d, k)),
                forall|q: int| 0 <= q < c ==> #[trigger] row@[q] == target[r as int][q],
            decreases old_len - c,
        {
            if c < CELL_SIDE_NUM {
                let (li, lp) = line_position(d, r, c);
                proof {
                    lemma_slide_len(line_of(g, d, li as int));
                }
                row.push(lines[li][lp]);
            } else {
                row.push(save_value.value_save[r][c]);
            }
            c = c + 1;
        }
        assert(row@ =~= target[r as int]);
        let mut same = true;
        let mut c2: usize = 0;
        while c2 < old_len
            invariant
                holds_board(g),
                target == moved_grid(g, d),
                r < CELL_SIDE_NUM,
                save_value.value_save@.len() == g.len(),
                c2 <= old_len,
                old_len == row@.len(),
                old_len == g[r as int].len(),
                row@ == target[r as int],
                save_value.value_save@[r as int]@ == g[r as int],
                same == forall|q: int| 0 <= q < c2 ==> row@[q] == g[r as int][q],
            decreases old_len - c2,
        {
            if row[c2] != save_value.value_save[r][c2] {
                same = false;
            }
            c2 = c2 + 1;
        }
        if !same {
            is_move = true;
        }
        proof {
            if same {
                assert(target[r as int] =~= g[r as int]);
            }
        }
        save_value.value_save.set(r, row);
        r = r + 1;
    }
    proof {
        assert forall|q: int| CELL_SIDE_NUM <= q < g.len() implies target[q] =~= g[q] by {}
        assert(grid(save_value.value_save) =~= target);
        if !is_move {
            assert(target =~= g);
            lemma_still_move_scores_nothing(g, d);
        }
    }
    is_move
}

/// Whether sliding `line` keeps every merged tile within a `u32`, and the
/// points the slide scores.
fn line_check(line: &Vec<u32>) -> (res: (bool, u64))
    requires
        line@.len() <= CELL_SIDE_NUM,
    ensures
        res.0 == slide_fits(line@),
        res.1 == slide_gain(line@),
{
    let ghost s = line@;
    let ghost total_gain = merge_gain(compress(s));
    let ghost total_fits = merge_fits(compress(s));
    let mut ok = true;
    let mut gain: u64 = 0;
    let mut pending: Option<u32> = None;
    let n = line.len();
    let mut i: usize = 0;
    assert(s.skip(0) =~= s);
    while i < n
        invariant
            n == s.len(),
            n <= CELL_SIDE_NUM,
            s == line@,
            i <= n,
            total_gain == merge_gain(compress(s)),
            total_fits == merge_fits(compress(s)),
            ({
                let pend = match pending {
                    Some(p) => seq![p],
                    None => Seq::<u32>::empty(),
                };
                let pend_val: int = match pending {
                    Some(p) => p as int,
                    None => 0,
                };
                &&& gain + merge_gain(pend + compress(s.skip(i as int))) == total_gain
                &&& (ok && merge_fits(pend + compress(s.skip(i as int)))) == total_fits
                &&& gain + pend_val <= i * (u32::MAX as int)
            }),
        decreases n - i,
    {
        let x = line[i];
        let ghost rest = compress(s.skip(i + 1));
        proof {
            lemma_compress_step(s, i as int);
        }
        if x != 0 {
            match pending {
                None => {
                    assert(Seq::<u32>::empty() + (seq![x] + rest) =~= seq![x] + rest);
                    pending = Some(x);
                },
                Some(p) => {
                    assert(seq![p] + (seq![x] + rest) =~= seq![p, x] + rest);
                    proof {
                        lemma_merge_two(p, x, rest);
                    }
                    if p == x {
                        let merged: u64 = p as u64 + x as u64;
                        if merged > u32::MAX as u64 {
                            ok = false;
                        }
                        gain = gain + merged;
                        pending = None;
                        assert(Seq::<u32>::empty() + rest =~= rest);
                    } else {
                        pending = Some(x);
                    }
                },
            }
        }
        i = i + 1;
    }
    assert(s.skip(n as int) =~= Seq::<u32>::empty());
    match pending {
        Some(p) => {
            assert(seq![p] + Seq::<u32>::empty() =~= seq![p]);
        },
        None => {
            assert(Seq::<u32>::empty() + Seq::<u32>::empty() =~= Seq::<u32>::empty());
        },
    }
    (ok, gain)
}

/// Whether a move in direction `d` can be made on this state without an
/// arithmetic overflow: the board holds the playing square, no merged tile
/// overflows a `u32`, and neither does the score.
pub fn check_move_allowed(save_value: &CellValueSave, d: MoveDirection) -> (allowed: bool)
    ensures
        allowed == move_allowed(grid(save_value.value_save), save_value.score, d),
{
    let ghost g = grid(save_value.value_save);
    if save_value.value_save.len() < CELL_SIDE_NUM {
        return false;
    }
    let mut r: usize = 0;
    while r < CELL_SIDE_NUM
        invariant
            g == grid(save_value.value_save),
            g.len() >= CELL_SIDE_NUM,
            r <= CELL_SIDE_NUM,
            forall|q: int| 0 <= q < r ==> (#[trigger] g[q]).len() >= CELL_SIDE_NUM,
        decreases CELL_SIDE_NUM - r,
    {
        if save_value.value_save[r].len() < CELL_SIDE_NUM {
            assert(g[r as int].len() < CELL_SIDE_NUM);
            return false;
        }
        r = r + 1;
    }
    assert(holds_board(g));
    let mut total: u64 = 0;
    let mut i: usize = 0;
    while i < CELL_SIDE_NUM
        invariant
            g == grid(save_value.value_save),
            holds_board(g),
            i <= CELL_SIDE_NUM,
            total == gain_upto(g, d, i as nat),
            total <= i * CELL_SIDE_NUM * (u32::MAX as int),
            forall|k: int| 0 <= k < i ==> slide_fits(#[trigger] line_of(g, d, k)),
        decreases CELL_SIDE_NUM - i,
    {
        let line = read_line(&save_value.value_save, d, i);
        let (fits, gained) = line_check(&line);
        if !fits {
            return false;
        }
        proof {
            lemma_line_gain_bound(line@);
        }
        total = total + gained;
        i = i + 1;
    }
    save_value.score as u64 + total <= u32::MAX as u64
}

proof fn lemma_line_gain_bound(s: Seq<u32>)
    requires
        s.len() <= CELL_SIDE_NUM,
    ensures
        slide_gain(s) <= CELL_SIDE_NUM * (u32::MAX as int),
{
    crate::line::lemma_gain_bound(compress(s));
    crate::line::lemma_compress_len(s);
}

/// Pushes all tiles to the right: in each row the tiles slide to the right
/// edge, and equal neighbours merge, pairing from the right; each merged tile
/// is added to the score. Returns whether the board changed.
pub fn to_right(save_value: &mut CellValueSave) -> (is_move: bool)
    requires
        move_allowed(grid(old(save_value).value_save), old(save_value).score, MoveDirection::RIGHT),
    ensures
        grid(final(save_value).value_save) == moved_grid(
            grid(old(save_value).value_save),
            MoveDirection::RIGHT,
        ),
        final(save_value).score == old(save_value).score + move_gain(
            grid(old(save_value).value_save),
            MoveDirection::RIGHT,
        ),
        is_move == (grid(final(save_value).value_save) != grid(old(save_value).value_save)),
        !is_move ==> final(save_value).score == old(save_value).score,
        final(save_value).score == old(save_value).score + slide_gain(
            line_of(grid(old(save_value).value_save), MoveDirection::RIGHT, 0),
        ) + slide_gain(line_of(grid(old(save_value).value_save), MoveDirection::RIGHT, 1)) + slide_gain(
            line_of(grid(old(save_value).value_save), MoveDirection::RIGHT, 2),
        ) + slide_gain(line_of(grid(old(save_value).value_save), MoveDirection::RIGHT, 3)),
{
    shift_board(save_value, MoveDirection::RIGHT)
}

/// Pushes all tiles to the left: in each row the tiles slide to the left
/// edge, and equal neighbours merge, pairing from the left; each merged tile
/// is added to the score. Returns whether the board changed.
pub fn to_left(save_value: &mut CellValueSave) -> (is_move: bool)
    requires
        move_allowed(grid(old(save_value).value_save), old(save_value).score, MoveDirection::LEFT),
    ensures
        grid(final(save_value).value_save) == moved_grid(
            grid(old(save_value).value_save),
            MoveDirection::LEFT,
        ),
        final(save_value).score == old(save_value).score + move_gain(
            grid(old(save_value).value_save),
            MoveDirection::LEFT,
        ),
        is_move == (grid(final(save_value).value_save) != grid(old(save_value).value_save)),
        !is_move ==> final(save_value).score == old(save_value).score,
        final(save_value).score == old(save_value).score + slide_gain(
            line_of(grid(old(save_value).value_save), MoveDirection::LEFT, 0),
        ) + slide_gain(line_of(grid(old(save_value).value_save), MoveDirection::LEFT, 1)) + slide_gain(
            line_of(grid(old(save_value).value_save), MoveDirection::LEFT, 2),
        ) + slide_gain(line_of(grid(old(save_value).value_save), MoveDirection::LEFT, 3)),
{
    shift_board(save_value, MoveDirection::LEFT)
}

/// Pushes all tiles up: in each column the tiles slide to the top edge, and
/// equal neighbours merge, pairing from the top; each merged tile is added
/// to the score. Returns whether the board changed.
pub fn to_up(save_value: &mut CellValueSave) -> (is_move: bool)
    requires
        move_allowed(grid(old(save_value).value_save), old(save_value).score, MoveDirection::UP),
    ensures
        grid(final(save_value).value_save) == moved_grid(
            grid(old(save_value).value_save),
            MoveDirection::UP,
        ),
        final(save_value).score == old(save_value).score + move_gain(
            grid(old(save_value).value_save),
            MoveDirection::UP,
        ),
        is_move == (grid(final(save_value).value_save) != grid(old(save_value).value_save)),
        !is_move ==> final(save_value).score == old(save_value).score,
        final(save_value).score == old(save_value).score + slide_gain(
            line_of(grid(old(save_value).value_save), MoveDirection::UP, 0),
        ) + slide_gain(line_of(grid(old(save_value).value_save), MoveDirection::UP, 1)) + slide_gain(
            line_of(grid(old(save_value).value_save), MoveDirection::UP, 2),
        ) + slide_gain(line_of(grid(old(save_value).value_save), MoveDirection::UP, 3)),
{
    shift_board(save_value, MoveDirection::UP)
}

/// Pushes all tiles down: in each column the tiles slide to the bottom edge,
/// and equal neighbours merge, pairing from the bottom; each merged tile is
/// added to the score. Returns whether the board changed.
pub fn to_down(save_value: &mut CellValueSave) -> (is_move: bool)
    requires
        move_allowed(grid(old(save_value).value_save), old(save_value).score, MoveDirection::DOWN),
    ensures
        grid(final(save_value).value_save) == moved_grid(
            grid(old(save_value).value_save),
            MoveDirection::DOWN,
        ),
        final(save_value).score == old(save_value).score + move_gain(
            grid(old(save_value).value_save),
            MoveDirection::DOWN,
        ),
        is_move == (grid(final(save_value).value_save) != grid(old(save_value).value_save)),
        !is_move ==> final(save_value).score == old(save_value).score,
        final(save_value).score == old(save_value).score + slide_gain(
            line_of(grid(old(save_value).value_save), MoveDirection::DOWN, 0),
        ) + slide_gain(line_of(grid(old(save_value).value_save), MoveDirection::DOWN, 1)) + slide_gain(
            line_of(grid(old(save_value).value_save), MoveDirection::DOWN, 2),
        ) + slide_gain(line_of(grid(old(save_value).value_save), MoveDirection::DOWN, 3)),
{
    shift_board(save_value, MoveDirection::DOWN)
}

/// The sum of the cells of the playing square.
pub open spec fn square_sum(g: Seq<Seq<u32>>) -> nat {
    rows_total(g, CELL_SIDE_NUM as nat)
}

/// The sum of the cells of the first `k` rows of the playing square.
pub open spec fn rows_total(g: Seq<Seq<u32>>, k: nat) -> nat
    decreases k,
{
    if k == 0 {
        0
    } else {
        rows_total(g, (k - 1) as nat) + line_sum(g[k - 1].take(CELL_SIDE_NUM as int))
    }
}

/// The sum of the cells of the first `k` lines for direction `d`.
pub open spec fn lines_total(g: Seq<Seq<u32>>, d: MoveDirection, k: nat) -> nat
    decreases k,
{
    if k == 0 {
        0
    } else {
        lines_total(g, d, (k - 1) as nat) + line_sum(line_of(g, d, k - 1))
    }
}

proof fn lemma_line_index_cell(d: MoveDirection, i: int, p: int)
    requires
        in_square(i, p),
    ensures
        in_square(line_cell(d, i, p).0, line_cell(d, i, p).1),
        line_index(d, line_cell(d, i, p).0, line_cell(d, i, p).1) == (i, p),
{
}

proof fn lemma_line_cell_index(d: MoveDirection, r: int, c: int)
    requires
        in_square(r, c),
    ensures
        in_square(line_index(d, r, c).0, line_index(d, r, c).1),
        line_cell(d, line_index(d, r, c).0, line_index(d, r, c).1) == (r, c),
{
}

/// A move keeps the shape of the board.
pub proof fn lemma_moved_holds_board(g: Seq<Seq<u32>>, d: MoveDirection)
    requires
        holds_board(g),
    ensures
        holds_board(moved_grid(g, d)),
        moved_grid(g, d).len() == g.len(),
        forall|r: int| 0 <= r < g.len() ==> (#[trigger] moved_grid(g, d)[r]).len() == g[r].len(),
{
}

/// Line `i` of the moved board, read in the direction of the move, is line `i`
/// of the board slid.
pub proof fn lemma_moved_line(g: Seq<Seq<u32>>, d: MoveDirection, i: int)
    requires
        holds_board(g),
        0 <= i < CELL_SIDE_NUM,
    ensures
        line_of(moved_grid(g, d), d, i) == slide(line_of(g, d, i)),
{
    lemma_slide_len(line_of(g, d, i));
    assert forall|p: int| 0 <= p < CELL_SIDE_NUM implies #[trigger] line_of(moved_grid(g, d), d, i)[p]
        == slide(line_of(g, d, i))[p] by {
        lemma_line_index_cell(d, i, p);
    }
    assert(line_of(moved_grid(g, d), d, i) =~= slide(line_of(g, d, i)));
}

/// A move leaves the board as it is exactly when the slide leaves every line
/// as it is.
pub proof fn lemma_moved_unchanged(g: Seq<Seq<u32>>, d: MoveDirection)
    requires
        holds_board(g),
    ensures
        moved_grid(g, d) == g <==> forall|i: int|
            0 <= i < CELL_SIDE_NUM ==> #[trigger] slide(line_of(g, d, i)) == line_of(g, d, i),
{
    if moved_grid(g, d) == g {
        assert forall|i: int| 0 <= i < CELL_SIDE_NUM implies #[trigger] slide(line_of(g, d, i))
            == line_of(g, d, i) by {
            lemma_moved_line(g, d, i);
        }
    }
    if forall|i: int|
        0 <= i < CELL_SIDE_NUM ==> #[trigger] slide(line_of(g, d, i)) == line_of(g, d, i) {
        assert forall|r: int| 0 <= r < g.len() implies #[trigger] moved_grid(g, d)[r] =~= g[r] by {
            assert forall|c: int| 0 <= c < g[r].len() implies moved_grid(g, d)[r][c] == g[r][c] by {
                if in_square(r, c) {
                    lemma_line_cell_index(d, r, c);
                    let (li, lp) = line_index(d, r, c);
                    assert(slide(line_of(g, d, li)) == line_of(g, d, li));
                }
            }
        }
        assert(moved_grid(g, d) =~= g);
    }
}

proof fn lemma_line_sum4(s: Seq<u32>)
    requires
        s.len() == 4,
    ensures
        line_sum(s) == s[0] + s[1] + s[2] + s[3],
{
    let s1 = s.drop_first();
    let s2 = s1.drop_first();
    let s3 = s2.drop_first();
    let s4 = s3.drop_first();
    assert(line_sum(s) == s[0] + line_sum(s1));
    assert(line_sum(s1) == s1[0] + line_sum(s2));
    assert(line_sum(s2) == s2[0] + line_sum(s3));
    assert(line_sum(s3) == s3[0] + line_sum(s4));
    assert(s4.len() == 0);
}

/// Summing the playing square line by line, in any direction, gives its sum.
proof fn lemma_lines_total(g: Seq<Seq<u32>>, d: MoveDirection)
    requires
        holds_board(g),
    ensures
        lines_total(g, d, CELL_SIDE_NUM as nat) == square_sum(g),
{
    reveal_with_fuel(lines_total, 5);
    reveal_with_fuel(rows_total, 5);
    lemma_line_sum4(line_of(g, d, 0));
    lemma_line_sum4(line_of(g, d, 1));
    lemma_line_sum4(line_of(g, d, 2));
    lemma_line_sum4(line_of(g, d, 3));
    lemma_line_sum4(g[0].take(4));
    lemma_line_sum4(g[1].take(4));
    lemma_line_sum4(g[2].take(4));
    lemma_line_sum4(g[3].take(4));
}

proof fn lemma_lines_total_slid(g: Seq<Seq<u32>>, d: MoveDirection, k: nat)
    requires
        holds_board(g),
        move_fits(g, d),
        k <= CELL_SIDE_NUM,
    ensures
        lines_total(moved_grid(g, d), d, k) == lines_total(g, d, k),
    decreases k,
{
    if k > 0 {
        lemma_lines_total_slid(g, d, (k - 1) as nat);
        lemma_moved_line(g, d, k - 1);
        lemma_slide_sum(line_of(g, d, k - 1));
    }
}

/// A move keeps the sum of the tiles on the playing square: merging two
/// tiles makes one tile of their sum, and sliding only moves tiles.
pub proof fn lemma_move_keeps_sum(g: Seq<Seq<u32>>, d: MoveDirection)
    requires
        holds_board(g),
        move_fits(g, d),
    ensures
        square_sum(moved_grid(g, d)) == square_sum(g),
{
    lemma_moved_holds_board(g, d);
    lemma_lines_total(g, d);
    lemma_lines_total(moved_grid(g, d), d);
    lemma_lines_total_slid(g, d, CELL_SIDE_NUM as nat);
}

/// The board with the playing square mirrored left to right.
pub open spec fn mirror_square(g: Seq<Seq<u32>>) -> Seq<Seq<u32>> {
    Seq::new(
        g.len(),
        |r: int|
            Seq::new(
                g[r].len(),
                |c: int|
                    if in_square(r, c) {
                        g[r][CELL_SIDE_NUM - 1 - c]
                    } else {
                        g[r][c]
                    },
            ),
    )
}

/// The board with the playing square mirrored across its main diagonal.
pub open spec fn transpose_square(g: Seq<Seq<u32>>) -> Seq<Seq<u32>> {
    Seq::new(
        g.len(),
        |r: int|
            Seq::new(
                g[r].len(),
                |c: int|
                    if in_square(r, c) {
                        g[c][r]
                    } else {
                        g[r][c]
                    },
            ),
    )
}

/// Pushing right is pushing left in the mirror: mirroring the square,
/// moving left and mirroring back gives the move to the right.
pub proof fn lemma_right_mirrors_left(g: Seq<Seq<u32>>)
    requires
        holds_board(g),
    ensures
        mirror_square(moved_grid(mirror_square(g), MoveDirection::LEFT)) == moved_grid(
            g,
            MoveDirection::RIGHT,
        ),
{
    let m = mirror_square(g);
    assert forall|i: int| 0 <= i < CELL_SIDE_NUM implies #[trigger] line_of(m, MoveDirection::LEFT, i)
        == line_of(g, MoveDirection::RIGHT, i) by {
        assert(line_of(m, MoveDirection::LEFT, i) =~= line_of(g, MoveDirection::RIGHT, i));
    }
    let lhs = mirror_square(moved_grid(m, MoveDirection::LEFT));
    let rhs = moved_grid(g, MoveDirection::RIGHT);
    assert forall|r: int| 0 <= r < g.len() implies #[trigger] lhs[r] =~= rhs[r] by {}
    assert(lhs =~= rhs);
}

/// Pushing up is pushing left in the transpose: transposing the square,
/// moving left and transposing back gives the move up.
pub proof fn lemma_up_transposes_left(g: Seq<Seq<u32>>)
    requires
        holds_board(g),
    ensures
        transpose_square(moved_grid(transpose_square(g), MoveDirection::LEFT)) == moved_grid(
            g,
            MoveDirection::UP,
        ),
{
    let t = transpose_square(g);
    assert forall|i: int| 0 <= i < CELL_SIDE_NUM implies #[trigger] line_of(t, MoveDirection::LEFT, i)
        == line_of(g, MoveDirection::UP, i) by {
        assert(line_of(t, MoveDirection::LEFT, i) =~= line_of(g, MoveDirection::UP, i));
    }
    let lhs = transpose_square(moved_grid(t, MoveDirection::LEFT));
    let rhs = moved_grid(g, MoveDirection::UP);
    assert forall|r: int| 0 <= r < g.len() implies #[trigger] lhs[r] =~= rhs[r] by {}
    assert(lhs =~= rhs);
}

/// Every cell of the playing square is empty or a power of two of at
/// least 2.
pub open spec fn square_tile_values(g: Seq<Seq<u32>>) -> bool {
    forall|r: int, c: int| in_square(r, c) ==> is_tile_value(#[trigger] g[r][c])
}

/// The points a move scores on the first `k` lines are zero when the move
/// leaves each of those lines as it is.
proof fn lemma_gain_upto_zero(g: Seq<Seq<u32>>, d: MoveDirection, k: nat)
    requires
        k <= CELL_SIDE_NUM,
        forall|i: int| 0 <= i < k ==> #[trigger] slide(line_of(g, d, i)) == line_of(g, d, i),
    ensures
        gain_upto(g, d, k) == 0,
    decreases k,
{
    if k > 0 {
        lemma_gain_upto_zero(g, d, (k - 1) as nat);
        lemma_still_slide_scores_nothing(line_of(g, d, k - 1));
    }
}

/// A move that leaves the board as it is scores nothing.
pub proof fn lemma_still_move_scores_nothing(g: Seq<Seq<u32>>, d: MoveDirection)
    requires
        holds_board(g),
        moved_grid(g, d) == g,
    ensures
        move_gain(g, d) == 0,
{
    lemma_moved_unchanged(g, d);
    lemma_gain_upto_zero(g, d, CELL_SIDE_NUM as nat);
}

/// A move keeps every cell of the square empty or a power of two of at
/// least 2: merging doubles a power of two.
pub proof fn lemma_move_keeps_tile_values(g: Seq<Seq<u32>>, d: MoveDirection)
    requires
        holds_board(g),
        move_fits(g, d),
        square_tile_values(g),
    ensures
        square_tile_values(moved_grid(g, d)),
{
    assert forall|r: int, c: int| in_square(r, c) implies is_tile_value(#[trigger] moved_grid(g, d)[r][c]) by {
        lemma_line_cell_index(d, r, c);
        let (i, p) = line_index(d, r, c);
        let s = line_of(g, d, i);
        assert forall|k: int| 0 <= k < s.len() implies is_tile_value(#[trigger] s[k]) by {
            lemma_line_index_cell(d, i, k);
        }
        assert(slide_fits(s));
        lemma_slide_keeps_tiles(s);
        lemma_slide_len(s);
        assert(is_tile_value(slide(s)[p]));
    }
}

/// Moving twice in the same direction is moving once, when the first move
/// leaves no two equal neighbouring tiles along any of its lines.
pub proof fn lemma_move_twice(g: Seq<Seq<u32>>, d: MoveDirection)
    requires
        holds_board(g),
        move_fits(g, d),
        forall|i: int, k: int|
            0 <= i < CELL_SIDE_NUM && 0 <= k < CELL_SIDE_NUM - 1 ==> #[trigger] line_of(
                moved_grid(g, d),
                d,
                i,
            )[k] == 0 || line_of(moved_grid(g, d), d, i)[k] != line_of(moved_grid(g, d), d, i)[k
                + 1],
    ensures
        moved_grid(moved_grid(g, d), d) == moved_grid(g, d),
{
    let m = moved_grid(g, d);
    lemma_moved_holds_board(g, d);
    assert forall|i: int| 0 <= i < CELL_SIDE_NUM implies #[trigger] slide(line_of(m, d, i)) == line_of(
        m,
        d,
        i,
    ) by {
        lemma_moved_line(g, d, i);
        crate::line::lemma_slide_packed(line_of(g, d, i));
        let t = line_of(m, d, i);
        assert forall|k: int| 0 <= k < t.len() - 1 implies #[trigger] t[k] == 0 || t[k] != t[k + 1] by {
            assert(line_of(m, d, i)[k] == 0 || line_of(m, d, i)[k] != line_of(m, d, i)[k + 1]);
        }
        lemma_slide_settled(t);
    }
    lemma_moved_unchanged(m, d);
}

} // verus!
