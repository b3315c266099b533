use vstd::prelude::*;

verus! {

/// Number of cells along each side of the square board.
pub const CELL_SIDE_NUM: usize = 4;

/// A tile of this value wins the game.
pub const WINNING_VALUE: u32 = 2048;

/// The outcome of the game after a move.
#[derive(Clone, Copy, Debug, PartialEq, Eq, Hash, Structural)]
#[allow(non_camel_case_types)]
pub enum VictoryState {
    NONE,
    VICTORY,
    DEFEAT,
}

/// The direction in which the player pushes the tiles.
#[derive(Clone, Copy, Debug, PartialEq, Eq, Hash, Structural)]
#[allow(non_camel_case_types)]
pub enum MoveDirection {
    NONE,
    UP,
    DOWN,
    LEFT,
    RIGHT,
}

/// The game state: the board, row by row, and the score.
pub struct CellValueSave {
    pub value_save: Vec<Vec<u32>>,
    pub score: u32,
}

/// The board as a sequence of rows.
pub open spec fn grid(b: Vec<Vec<u32>>) -> Seq<Seq<u32>> {
    Seq::new(b@.len(), |r: int| b@[r]@)
}

/// The board is at least `CELL_SIDE_NUM` rows of at least `CELL_SIDE_NUM`
/// cells: the rules read and write the top-left `CELL_SIDE_NUM` square only.
pub open spec fn holds_board(g: Seq<Seq<u32>>) -> bool {
    &&& g.len() >= CELL_SIDE_NUM
    &&& forall|r: int| 0 <= r < CELL_SIDE_NUM ==> (#[trigger] g[r]).len() >= CELL_SIDE_NUM
}

/// Whether `(r, c)` is a cell of the playing square.
pub open spec fn in_square(r: int, c: int) -> bool {
    0 <= r < CELL_SIDE_NUM && 0 <= c < CELL_SIDE_NUM
}

/// A board has `CELL_SIDE_NUM` rows of `CELL_SIDE_NUM` cells.
pub open spec fn is_square(g: Seq<Seq<u32>>) -> bool {
    &&& g.len() == CELL_SIDE_NUM
    &&& forall|r: int| 0 <= r < CELL_SIDE_NUM ==> (#[trigger] g[r]).len() == CELL_SIDE_NUM
}

/// A grid of the board's shape with every cell empty.
pub open spec fn empty_grid() -> Seq<Seq<u32>> {
    Seq::new(CELL_SIDE_NUM as nat, |r: int| Seq::new(CELL_SIDE_NUM as nat, |c: int| 0u32))
}

/// The direction chosen by the arrow keys pressed in one frame. When several
/// are pressed, LEFT wins over RIGHT, RIGHT over DOWN, and DOWN over UP; with
/// none pressed the direction is NONE.
pub fn direction_from_keys(up: bool, down: bool, right: bool, left: bool) -> (moved: MoveDirection)
    ensures
        moved == (if left {
            MoveDirection::LEFT
        } else if right {
            MoveDirection::RIGHT
        } else if down {
            MoveDirection::DOWN
        } else if up {
            MoveDirection::UP
        } else {
            MoveDirection::NONE
        }),
{
    let mut moved = MoveDirection::NONE;
    if up {
        moved = MoveDirection::UP;
    }
    if down {
        moved = MoveDirection::DOWN;
    }
    if right {
        moved = MoveDirection::RIGHT;
    }
    if left {
        moved = MoveDirection::LEFT;
    }
    moved
}

} // verus!
