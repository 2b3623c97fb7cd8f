use vstd::prelude::*;

verus! {

/// Index of cell (`r`, `c`) in a row-major grid.
pub open spec fn idx(r: int, c: int) -> int {
    r * 9 + c
}

/// A coordinate within 0..9.
pub open spec fn in_range(x: int) -> bool {
    0 <= x < 9
}

/// Two distinct cells that share a row, a column or a 3x3 box.
pub open spec fn peers(r: int, c: int, r2: int, c2: int) -> bool {
    &&& !(r == r2 && c == c2)
    &&& (r == r2 || c == c2 || (r / 3 == r2 / 3 && c / 3 == c2 / 3))
}

/// No peer of cell (`r`, `c`) holds `v`.
pub open spec fn valid_at(b: Seq<i32>, v: i32, r: int, c: int) -> bool {
    forall|r2: int, c2: int|
        #![trigger b[idx(r2, c2)]]
        in_range(r2) && in_range(c2) && peers(r, c, r2, c2) ==> b[idx(r2, c2)] != v
}

/// Cell (`r`, `c`) is empty.
pub open spec fn is_empty(b: Seq<i32>, r: int, c: int) -> bool {
    b[idx(r, c)] == 0
}

/// No cell of the grid is empty.
pub open spec fn full(b: Seq<i32>) -> bool {
    forall|i: int| 0 <= i < 81 ==> b[i] != 0
}

/// The grid with every cell that is not a given cleared.
pub open spec fn unsolved(b: Seq<i32>, givens: Seq<bool>) -> Seq<i32> {
    Seq::new(b.len(), |i: int| if givens[i] { b[i] } else { 0 })
}

/// Returns the first empty cell in row-major order, or `None` when the grid
/// is full.
pub fn find_empty_box(board: [i32; 81]) -> (r: Option<(i32, i32)>)
    ensures
        r is None <==> full(board@),
        r matches Some((row, col)) ==> {
            &&& in_range(row as int) && in_range(col as int)
            &&& is_empty(board@, row as int, col as int)
            &&& forall|i: int| 0 <= i < idx(row as int, col as int) ==> board@[i] != 0
        },
{
    let mut i: i32 = 0;
    while i < 9
        invariant
            0 <= i <= 9,
            forall|k: int| 0 <= k < idx(i as int, 0) ==> board@[k] != 0,
        decreases 9 - i,
    {
        let mut j: i32 = 0;
        while j < 9
            invariant
                0 <= i < 9,
                0 <= j <= 9,
                forall|k: int| 0 <= k < idx(i as int, j as int) ==> board@[k] != 0,
            decreases 9 - j,
        {
            if board[(i * 9 + j) as usize] == 0 {
                return Some((i, j));
            }
            j = j + 1;
        }
        i = i + 1;
    }
    None
}

/// Decides whether `val` may stand at (`row`, `col`): true exactly when no
/// other cell of the same row, column or 3x3 box holds it.
pub fn is_valid(board: [i32; 81], val: i32, row: i32, col: i32) -> (r: bool)
    requires
        in_range(row as int),
        in_range(col as int),
    ensures
        r == valid_at(board@, val, row as int, col as int),
{
    // the row
    let mut i: i32 = 0;
    while i < 9
        invariant
            0 <= i <= 9,
            in_range(row as int),
            in_range(col as int),
            forall|c2: int| 0 <= c2 < i && c2 != col ==> board@[idx(row as int, c2)] != val,
        decreases 9 - i,
    {
        if board[(row * 9 + i) as usize] == val && col != i {
            assert(peers(row as int, col as int, row as int, i as int));
            assert(board@[idx(row as int, i as int)] == val);
            return false;
        }
        i = i + 1;
    }
    // the column
    let mut i: i32 = 0;
    while i < 9
        invariant
            0 <= i <= 9,
            in_range(row as int),
            in_range(col as int),
            forall|r2: int| 0 <= r2 < i && r2 != row ==> board@[idx(r2, col as int)] != val,
        decreases 9 - i,
    {
        if board[(i * 9 + col) as usize] == val && row != i {
            assert(peers(row as int, col as int, i as int, col as int));
            assert(board@[idx(i as int, col as int)] == val);
            return false;
        }
        i = i + 1;
    }
    // the 3x3 box
    let square_row: i32 = row / 3;
    let square_col: i32 = col / 3;
    let mut i: i32 = 0;
    while i < 3
        invariant
            0 <= i <= 3,
            in_range(row as int),
            in_range(col as int),
            square_row == row / 3,
            square_col == col / 3,
            forall|r2: int, c2: int|
                square_row * 3 <= r2 < square_row * 3 + i && square_col * 3 <= c2 < square_col * 3
                    + 3 && !(r2 == row && c2 == col) ==> #[trigger] board@[idx(r2, c2)] != val,
        decreases 3 - i,
    {
        let mut j: i32 = 0;
        while j < 3
            invariant
                0 <= i < 3,
                0 <= j <= 3,
                in_range(row as int),
                in_range(col as int),
                square_row == row / 3,
                square_col == col / 3,
                forall|r2: int, c2: int|
                    (square_row * 3 <= r2 < square_row * 3 + i && square_col * 3 <= c2 < square_col
                        * 3 + 3 || r2 == square_row * 3 + i && square_col * 3 <= c2 < square_col * 3
                        + j) && !(r2 == row && c2 == col) ==> #[trigger] board@[idx(r2, c2)] != val,
            decreases 3 - j,
        {
            let r2: i32 = square_row * 3 + i;
            let c2: i32 = square_col * 3 + j;
            if board[(r2 * 9 + c2) as usize] == val && !(r2 == row && c2 == col) {
                assert(peers(row as int, col as int, r2 as int, c2 as int));
                assert(board@[idx(r2 as int, c2 as int)] == val);
                return false;
            }
            j = j + 1;
        }
        i = i + 1;
    }
    assert forall|r2: int, c2: int|
        in_range(r2) && in_range(c2) && peers(
            row as int,
            col as int,
            r2,
            c2,
        ) implies #[trigger] board@[idx(r2, c2)] != val by {
        if r2 != row && c2 != col {
            assert(square_row * 3 <= r2 < square_row * 3 + 3);
            assert(square_col * 3 <= c2 < square_col * 3 + 3);
        }
    }
    true
}

/// Clears every cell that is not a given; givens keep their value.
pub fn unsolve_board(board: &mut [i32; 81], constant_map: [bool; 81])
    ensures
        final(board)@ == unsolved(old(board)@, constant_map@),
{
    let mut i: usize = 0;
    while i < 81
        invariant
            0 <= i <= 81,
            board@.len() == 81,
            forall|k: int| 0 <= k < i ==> board@[k] == unsolved(old(board)@, constant_map@)[k],
            forall|k: int| i <= k < 81 ==> board@[k] == old(board)@[k],
        decreases 81 - i,
    {
        if !constant_map[i] {
            board[i] = 0;
        }
        i = i + 1;
    }
    assert(board@ =~= unsolved(old(board)@, constant_map@));
}

} // verus!
