use vstd::prelude::*;

verus! {

/// Cell lookup in a row-major sequence of cells: the cell at `(x, y)` of a
/// grid `w` cells wide sits at index `x + y*w`.
pub open spec fn cell_of(s: Seq<bool>, w: int, x: int, y: int) -> bool {
    s[x + y * w]
}

/// Dense boolean grid: row-major cells plus dimension metadata.
#[derive(Clone)]
pub struct Field {
    pub vec: Vec<bool>,
    pub width: usize,
    pub height: usize,
}

impl Field {
    /// Well-formedness: the cell storage covers exactly width*height cells.
    pub open spec fn wf(&self) -> bool {
        self.vec@.len() == self.width * self.height
    }

    /// The cell at `(x, y)`, row-major.
    pub open spec fn cell(&self, x: int, y: int) -> bool {
        cell_of(self.vec@, self.width as int, x, y)
    }

    pub fn new(vec: Vec<bool>, width: usize, height: usize) -> (f: Field)
        ensures
            f.vec == vec,
            f.width == width,
            f.height == height,
    {
        Field { vec, width, height }
    }

    pub fn get_vec(&self) -> (r: &Vec<bool>)
        ensures
            r == &self.vec,
    {
        &self.vec
    }

    pub fn get_vec_mut(&mut self) -> (r: &mut Vec<bool>)
        ensures
            *r == old(self).vec,
            final(self).vec == *final(r),
            final(self).width == old(self).width,
            final(self).height == old(self).height,
    {
        &mut self.vec
    }

    pub fn get_width(&self) -> (r: &usize)
        ensures
            *r == self.width,
    {
        &self.width
    }

    pub fn get_width_mut(&mut self) -> (r: &mut usize)
        ensures
            *r == old(self).width,
            final(self).width == *final(r),
            final(self).vec == old(self).vec,
            final(self).height == old(self).height,
    {
        &mut self.width
    }

    pub fn get_height(&self) -> (r: &usize)
        ensures
            *r == self.height,
    {
        &self.height
    }

    pub fn get_height_mut(&mut self) -> (r: &mut usize)
        ensures
            *r == old(self).height,
            final(self).height == *final(r),
            final(self).vec == old(self).vec,
            final(self).width == old(self).width,
    {
        &mut self.height
    }

    /// Read the cell at `(x, y)`.
    pub fn get(&self, x: usize, y: usize) -> (b: bool)
        requires
            self.wf(),
            x < self.width,
            y < self.height,
        ensures
            b == self.cell(x as int, y as int),
    {
        let n = self.vec.len();
        proof {
            lemma_row_major_index_in_range(
                self.width as int,
                self.height as int,
                x as int,
                y as int,
            );
            assert(x + y * self.width < n);
        }
        self.vec[x + y * self.width]
    }

    /// Write the cell at `(x, y)`, leaving every other cell unchanged.
    pub fn set(&mut self, x: usize, y: usize, value: bool)
        requires
            old(self).wf(),
            x < old(self).width,
            y < old(self).height,
        ensures
            final(self).wf(),
            final(self).width == old(self).width,
            final(self).height == old(self).height,
            final(self).cell(x as int, y as int) == value,
            forall|i: int, j: int|
                0 <= i < old(self).width && 0 <= j < old(self).height
                    && !(i == x && j == y)
                    ==> #[trigger] final(self).cell(i, j) == old(self).cell(i, j),
    {
        let n = self.vec.len();
        proof {
            lemma_row_major_index_in_range(
                self.width as int,
                self.height as int,
                x as int,
                y as int,
            );
            assert(x + y * self.width < n);
        }
        let idx = x + y * self.width;
        self.vec[idx] = value;
        proof {
            let w = self.width as int;
            let h = self.height as int;
            assert forall|i: int, j: int|
                0 <= i < w && 0 <= j < h && !(i == x && j == y) implies #[trigger] self.cell(i, j)
                == old(self).cell(i, j) by {
                lemma_row_major_index_in_range(w, h, i, j);
                lemma_row_major_index_unique(w, i, j, x as int, y as int);
            }
        }
    }
}

/// Whether `(x, y)` lies on the field and holds a live cell; out-of-field
/// coordinates count as dead (the finite boundary policy).
pub open spec fn alive_at(f: Field, x: int, y: int) -> bool {
    0 <= x < f.width && 0 <= y < f.height && f.cell(x, y)
}

/// 1 if `(x, y)` holds a live cell, 0 otherwise.
pub open spec fn nb(f: Field, x: int, y: int) -> int {
    if alive_at(f, x, y) {
        1int
    } else {
        0int
    }
}

/// Number of live cells among the 8 Moore neighbors of `(x, y)`, with
/// out-of-field neighbors counting as dead.
pub open spec fn live_neighbors(f: Field, x: int, y: int) -> int {
    nb(f, x - 1, y - 1) + nb(f, x, y - 1) + nb(f, x + 1, y - 1) + nb(f, x - 1, y) + nb(
        f,
        x + 1,
        y,
    ) + nb(f, x - 1, y + 1) + nb(f, x, y + 1) + nb(f, x + 1, y + 1)
}

/// The Life rule: a live cell survives with 2 or 3 live neighbors; a dead cell
/// is born with exactly 3.
pub open spec fn next_cell(f: Field, x: int, y: int) -> bool {
    if f.cell(x, y) {
        live_neighbors(f, x, y) == 2 || live_neighbors(f, x, y) == 3
    } else {
        live_neighbors(f, x, y) == 3
    }
}

/// Count the live Moore neighbors of `(x, y)` on the field.
fn count_live_neighbors(field: &Field, x: usize, y: usize) -> (c: u8)
    requires
        field.wf(),
        x < field.width,
        y < field.height,
    ensures
        c as int == live_neighbors(*field, x as int, y as int),
{
    let w = field.width;
    let h = field.height;
    let mut c: u8 = 0;
    if x > 0 && y > 0 && field.get(x - 1, y - 1) {
        c += 1;
    }
    if y > 0 && field.get(x, y - 1) {
        c += 1;
    }
    if x + 1 < w && y > 0 && field.get(x + 1, y - 1) {
        c += 1;
    }
    if x > 0 && field.get(x - 1, y) {
        c += 1;
    }
    if x + 1 < w && field.get(x + 1, y) {
        c += 1;
    }
    if x > 0 && y + 1 < h && field.get(x - 1, y + 1) {
        c += 1;
    }
    if y + 1 < h && field.get(x, y + 1) {
        c += 1;
    }
    if x + 1 < w && y + 1 < h && field.get(x + 1, y + 1) {
        c += 1;
    }
    c
}

/// Run-time options of a game instance.
pub struct Options {
    pub boundaries_rule: BoundariesRule,
}

impl Default for Options {
    fn default() -> (r: Self)
        ensures
            r.boundaries_rule is Finite,
    {
        Options { boundaries_rule: BoundariesRule::Finite }
    }
}

/// How cells beyond the field edge are treated. Only `Finite` (out-of-field
/// neighbors count as dead) is implemented; the others are reserved.
pub enum BoundariesRule {
    _Infinite,
    Finite,
    _Cyclic,
}

/// A running simulation: the current field plus its options.
pub struct GameInstance {
    field: Field,
    options: Options,
}

impl GameInstance {
    /// The current field as seen by specifications.
    pub closed spec fn spec_field(&self) -> Field {
        self.field
    }

    /// The options as seen by specifications.
    pub closed spec fn spec_options(&self) -> Options {
        self.options
    }

    /// Well-formedness of the instance: the field storage matches its
    /// dimensions.
    pub open spec fn wf(&self) -> bool {
        self.spec_field().wf()
    }

    pub fn new(field: Vec<bool>, dimensions: (usize, usize), options: Options) -> (g:
        GameInstance)
        ensures
            g.spec_field().vec == field,
            g.spec_field().width == dimensions.0,
            g.spec_field().height == dimensions.1,
            g.spec_options() == options,
    {
        GameInstance { field: Field::new(field, dimensions.0, dimensions.1), options }
    }

    /// Advance the simulation one generation: every cell of the new field is
    /// the Life rule applied to the old field, computed entirely from the
    /// pre-step state.
    pub fn new_generation(&mut self)
        requires
            old(self).wf(),
        ensures
            final(self).wf(),
            final(self).spec_field().width == old(self).spec_field().width,
            final(self).spec_field().height == old(self).spec_field().height,
            final(self).spec_options() == old(self).spec_options(),
            forall|x: int, y: int|
                0 <= x < old(self).spec_field().width && 0 <= y < old(self).spec_field().height
                    ==> #[trigger] final(self).spec_field().cell(x, y) == next_cell(
                    old(self).spec_field(),
                    x,
                    y,
                ),
    {
        let len_x = self.width();
        let len_y = self.height();
        let ghost prev = self.field;
        let mut new_vec: Vec<bool> = Vec::new();
        let mut y: usize = 0;
        while y < len_y
            invariant
                self == old(self),
                self.wf(),
                len_x == self.spec_field().width,
                len_y == self.spec_field().height,
                prev == self.spec_field(),
                y <= len_y,
                new_vec@.len() == y * len_x,
                forall|i: int, j: int|
                    0 <= i < len_x && 0 <= j < y ==> #[trigger] cell_of(
                        new_vec@,
                        len_x as int,
                        i,
                        j,
                    ) == next_cell(prev, i, j),
            decreases len_y - y,
        {
            let mut x: usize = 0;
            while x < len_x
                invariant
                    self == old(self),
                    self.wf(),
                    len_x == self.spec_field().width,
                    len_y == self.spec_field().height,
                    prev == self.spec_field(),
                    y < len_y,
                    x <= len_x,
                    new_vec@.len() == y * len_x + x,
                    forall|i: int, j: int|
                        0 <= i < len_x && 0 <= j < y ==> #[trigger] cell_of(
                            new_vec@,
                            len_x as int,
                            i,
                            j,
                        ) == next_cell(prev, i, j),
                    forall|i: int|
                        0 <= i < x ==> #[trigger] cell_of(new_vec@, len_x as int, i, y as int)
                            == next_cell(prev, i, y as int),
                decreases len_x - x,
            {
                let count = count_live_neighbors(&self.field, x, y);
                let alive = self.field.get(x, y);
                let next = if alive {
                    count == 2 || count == 3
                } else {
                    count == 3
                };
                let ghost pre = new_vec@;
                new_vec.push(next);
                proof {
                    let w = len_x as int;
                    lemma_row_major_index_in_range(w, len_y as int, x as int, y as int);
                    assert(cell_of(new_vec@, w, x as int, y as int) == next_cell(
                        prev,
                        x as int,
                        y as int,
                    ));
                    assert forall|i: int, j: int| 0 <= i < len_x && 0 <= j < y implies #[trigger] cell_of(
                        new_vec@,
                        w,
                        i,
                        j,
                    ) == next_cell(prev, i, j) by {
                        lemma_row_major_below_row(w, i, j, y as int);
                        assert(cell_of(pre, w, i, j) == next_cell(prev, i, j));
                        assert(new_vec@[i + j * w] == pre[i + j * w]);
                    }
                    assert forall|i: int| 0 <= i < x + 1 implies #[trigger] cell_of(
                        new_vec@,
                        w,
                        i,
                        y as int,
                    ) == next_cell(prev, i, y as int) by {
                        if i < x {
                            assert(cell_of(pre, w, i, y as int) == next_cell(prev, i, y as int));
                            assert(new_vec@[i + y as int * w] == pre[i + y as int * w]);
                        }
                    }
                }
                x += 1;
            }
            proof {
                assert((y + 1) * len_x == y * len_x + len_x) by (nonlinear_arith);
            }
            y += 1;
        }
        proof {
            assert(len_y * len_x == len_x * len_y) by (nonlinear_arith);
        }
        self.field.vec = new_vec;
    }

    pub fn get_field(&self) -> (r: &Field)
        ensures
            r == &self.spec_field(),
    {
        &self.field
    }

    pub fn get_field_mut(&mut self) -> (r: &mut Field)
        ensures
            *r == old(self).spec_field(),
            final(self).spec_field() == *final(r),
    {
        &mut self.field
    }

    pub fn width(&self) -> (w: usize)
        ensures
            w == self.spec_field().width,
    {
        self.field.width
    }

    pub fn height(&self) -> (h: usize)
        ensures
            h == self.spec_field().height,
    {
        self.field.height
    }
}

/// A cell that is dead and comes alive on the next generation has exactly 3
/// live Moore neighbors, out-of-field neighbors counting as dead.
pub proof fn lemma_birth_needs_three_neighbors(f: Field, x: int, y: int)
    requires
        0 <= x < f.width,
        0 <= y < f.height,
        !f.cell(x, y),
        next_cell(f, x, y),
    ensures
        live_neighbors(f, x, y) == 3,
{
}

/// Advancing the all-dead field yields the all-dead field.
pub proof fn lemma_dead_field_stays_dead(f: Field)
    requires
        f.wf(),
        forall|x: int, y: int| 0 <= x < f.width && 0 <= y < f.height ==> !#[trigger] f.cell(x, y),
    ensures
        forall|x: int, y: int|
            0 <= x < f.width && 0 <= y < f.height ==> !#[trigger] next_cell(f, x, y),
{
    assert forall|x: int, y: int| 0 <= x < f.width && 0 <= y < f.height implies !#[trigger] next_cell(
        f,
        x,
        y,
    ) by {
        assert(live_neighbors(f, x, y) == 0);
    }
}

/// A field that holds exactly the 2x2 block, away from the field edge.
pub open spec fn is_block_field(f: Field) -> bool {
    f.wf() && f.width >= 53 && f.height >= 53 && forall|x: int, y: int|
        0 <= x < f.width && 0 <= y < f.height ==> #[trigger] f.cell(x, y)
            == crate::field_presets::square_cell(x, y)
}

/// A 2x2 block of live cells away from the field edge is a still life: one
/// generation leaves every cell of the field unchanged, and any field that
/// holds the advanced state is again exactly the block, so the block persists
/// over any number of generations.
pub proof fn lemma_block_is_still_life(f: Field, g: Field)
    requires
        is_block_field(f),
        g.wf(),
        g.width == f.width,
        g.height == f.height,
        forall|x: int, y: int|
            0 <= x < f.width && 0 <= y < f.height ==> #[trigger] g.cell(x, y) == next_cell(
                f,
                x,
                y,
            ),
    ensures
        forall|x: int, y: int|
            0 <= x < f.width && 0 <= y < f.height ==> #[trigger] next_cell(f, x, y) == f.cell(
                x,
                y,
            ),
        is_block_field(g),
{
    assert forall|x: int, y: int| 0 <= x < f.width && 0 <= y < f.height implies #[trigger] next_cell(
        f,
        x,
        y,
    ) == f.cell(x, y) by {
        if 48 <= x <= 53 && 48 <= y <= 53 {
            assert(next_cell(f, x, y) == f.cell(x, y));
        } else {
            assert(live_neighbors(f, x, y) == 0);
        }
    }
}

/// A row-major index `x + y*w` stays below the start of row `r` whenever the
/// cell lies in an earlier row.
pub proof fn lemma_row_major_below_row(w: int, x: int, y: int, r: int)
    by (nonlinear_arith)
    requires
        0 <= x < w,
        0 <= y < r,
    ensures
        0 <= x + y * w < r * w,
{
}

/// A row-major index `x + y*w` stays below `w*h` whenever `(x, y)` is in bounds.
pub proof fn lemma_row_major_index_in_range(w: int, h: int, x: int, y: int)
    by (nonlinear_arith)
    requires
        0 <= x < w,
        0 <= y < h,
    ensures
        0 <= x + y * w < w * h,
{
}

/// Two in-column-range coordinates share a row-major index exactly when they
/// are the same coordinate.
pub proof fn lemma_row_major_index_unique(w: int, x: int, y: int, a: int, b: int)
    by (nonlinear_arith)
    requires
        0 <= x < w,
        0 <= a < w,
    ensures
        (x + y * w == a + b * w) <==> (x == a && y == b),
{
}

} // verus!
