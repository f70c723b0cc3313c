use vstd::prelude::*;

verus! {

/// Width of the preset playing field, in cells.
pub const PRESET_WIDTH: usize = 640;

/// Height of the preset playing field, in cells.
pub const PRESET_HEIGHT: usize = 360;

/// Row-major index of `(x, y)` on the preset playing field.
pub fn convert(x: usize, y: usize) -> (i: usize)
    requires
        x < PRESET_WIDTH,
        y < PRESET_HEIGHT,
    ensures
        i == x + y * (PRESET_WIDTH as int),
        i < PRESET_WIDTH * PRESET_HEIGHT,
{
    x + y * 640
}

/// A preset field with every cell alive.
pub fn full() -> (field: Vec<bool>)
    ensures
        field@.len() == PRESET_WIDTH * PRESET_HEIGHT,
        forall|k: int| 0 <= k < field@.len() ==> field@[k],
{
    let mut field: Vec<bool> = Vec::new();
    let n = PRESET_WIDTH * PRESET_HEIGHT;
    let mut i: usize = 0;
    while i < n
        invariant
            i <= n,
            field@.len() == i,
            forall|k: int| 0 <= k < i ==> field@[k],
        decreases n - i,
    {
        field.push(true);
        i += 1;
    }
    field
}

/// A preset field with every cell dead.
fn blank() -> (field: Vec<bool>)
    ensures
        field@.len() == PRESET_WIDTH * PRESET_HEIGHT,
        forall|k: int| 0 <= k < field@.len() ==> !field@[k],
{
    let mut field: Vec<bool> = Vec::new();
    let n = PRESET_WIDTH * PRESET_HEIGHT;
    let mut i: usize = 0;
    while i < n
        invariant
            i <= n,
            field@.len() == i,
            forall|k: int| 0 <= k < i ==> !field@[k],
        decreases n - i,
    {
        field.push(false);
        i += 1;
    }
    field
}

/// The five live cells of the R-pentomino seed.
pub open spec fn r_pentomino_cell(x: int, y: int) -> bool {
    (x == 50 && y == 50) || (x == 51 && y == 50) || (x == 50 && y == 51) || (x == 49 && y == 51)
        || (x == 50 && y == 52)
}

/// A preset field seeded with the R-pentomino.
pub fn r_pentomino() -> (field: Vec<bool>)
    ensures
        field@.len() == PRESET_WIDTH * PRESET_HEIGHT,
        forall|x: int, y: int|
            0 <= x < PRESET_WIDTH && 0 <= y < PRESET_HEIGHT
                ==> #[trigger] crate::game_of_life::cell_of(field@, PRESET_WIDTH as int, x, y)
                    == r_pentomino_cell(x, y),
{
    let mut field = blank();
    let i0 = convert(50, 50);
    field[i0] = true;
    let i1 = convert(51, 50);
    field[i1] = true;
    let i2 = convert(50, 51);
    field[i2] = true;
    let i3 = convert(49, 51);
    field[i3] = true;
    let i4 = convert(50, 52);
    field[i4] = true;
    proof {
        assert forall|x: int, y: int| 0 <= x < PRESET_WIDTH && 0 <= y < PRESET_HEIGHT
            implies #[trigger] crate::game_of_life::cell_of(field@, PRESET_WIDTH as int, x, y)
                == r_pentomino_cell(x, y) by {
            let w = PRESET_WIDTH as int;
            crate::game_of_life::lemma_row_major_index_in_range(w, PRESET_HEIGHT as int, x, y);
            crate::game_of_life::lemma_row_major_index_unique(w, x, y, 50, 50);
            crate::game_of_life::lemma_row_major_index_unique(w, x, y, 51, 50);
            crate::game_of_life::lemma_row_major_index_unique(w, x, y, 50, 51);
            crate::game_of_life::lemma_row_major_index_unique(w, x, y, 49, 51);
            crate::game_of_life::lemma_row_major_index_unique(w, x, y, 50, 52);
        }
    }
    field
}

/// The four live cells of the 2x2 block seed.
pub open spec fn square_cell(x: int, y: int) -> bool {
    (x == 50 && y == 50) || (x == 51 && y == 50) || (x == 50 && y == 51) || (x == 51 && y == 51)
}

/// A preset field seeded with a 2x2 block (a still life).
pub fn square() -> (field: Vec<bool>)
    ensures
        field@.len() == PRESET_WIDTH * PRESET_HEIGHT,
        forall|x: int, y: int|
            0 <= x < PRESET_WIDTH && 0 <= y < PRESET_HEIGHT
                ==> #[trigger] crate::game_of_life::cell_of(field@, PRESET_WIDTH as int, x, y)
                    == square_cell(x, y),
{
    let mut field = blank();
    let i0 = convert(50, 50);
    field[i0] = true;
    let i1 = convert(51, 50);
    field[i1] = true;
    let i2 = convert(50, 51);
    field[i2] = true;
    let i3 = convert(51, 51);
    field[i3] = true;
    proof {
        assert forall|x: int, y: int| 0 <= x < PRESET_WIDTH && 0 <= y < PRESET_HEIGHT
            implies #[trigger] crate::game_of_life::cell_of(field@, PRESET_WIDTH as int, x, y)
                == square_cell(x, y) by {
            let w = PRESET_WIDTH as int;
            crate::game_of_life::lemma_row_major_index_in_range(w, PRESET_HEIGHT as int, x, y);
            crate::game_of_life::lemma_row_major_index_unique(w, x, y, 50, 50);
            crate::game_of_life::lemma_row_major_index_unique(w, x, y, 51, 50);
            crate::game_of_life::lemma_row_major_index_unique(w, x, y, 50, 51);
            crate::game_of_life::lemma_row_major_index_unique(w, x, y, 51, 51);
        }
    }
    field
}

} // verus!
