use vstd::prelude::*;

verus! {

use crate::game_of_life::Field;
use crate::game_of_life::cell_of;
use crate::game_of_life::lemma_row_major_below_row;
use crate::game_of_life::lemma_row_major_index_in_range;
use crate::game_of_life::lemma_row_major_index_unique;

/// One whole pixel in the fixed-point coordinate scale: coordinates, zoom
/// factors and interpolation weights are carried as integers counting
/// 1/65536-ths.
pub const FP_ONE: u64 = 65536;

/// Half a pixel in the fixed-point coordinate scale.
pub const FP_HALF: u64 = 32768;

/// Red channel of a packed color: the least significant byte.
pub open spec fn chan_r(c: u32) -> u32 {
    c & 0xff
}

/// Green channel of a packed color: the second byte.
pub open spec fn chan_g(c: u32) -> u32 {
    (c >> 8) & 0xff
}

/// Blue channel of a packed color: the third byte.
pub open spec fn chan_b(c: u32) -> u32 {
    (c >> 16) & 0xff
}

/// Alpha channel of a packed color: the most significant byte.
pub open spec fn chan_a(c: u32) -> u32 {
    (c >> 24) & 0xff
}

/// Pack four 8-bit channels into one 32-bit color.
pub open spec fn pack_channels(r: u32, g: u32, b: u32, a: u32) -> u32 {
    (a << 24) | (b << 16) | (g << 8) | r
}

/// The wide form of a packed color: the same four channels spread over
/// 32-bit lanes of a 128-bit integer, for blending headroom.
pub open spec fn wide_of(c: u32) -> u128 {
    ((chan_a(c) as u128) << 96) | ((chan_r(c) as u128) << 64) | ((chan_g(c) as u128) << 32) | (
    chan_b(c) as u128)
}

/// Packing a wide color back into 32 bits, lane by lane.
pub open spec fn from_wide(v: u128) -> u32 {
    ((((v >> 96) & 0xff) as u32) << 24) | (((v & 0xff) as u32) << 16) | ((((v >> 32) & 0xff)
        as u32) << 8) | (((v >> 64) & 0xff) as u32)
}

/// Each channel of a packed color is a byte.
pub proof fn lemma_chan_bounds(c: u32)
    by (bit_vector)
    ensures
        chan_r(c) < 256,
        chan_g(c) < 256,
        chan_b(c) < 256,
        chan_a(c) < 256,
{
}

/// Packing four bytes and unpacking them returns the same four bytes.
pub proof fn lemma_pack_unpack(r: u32, g: u32, b: u32, a: u32)
    by (bit_vector)
    requires
        r < 256,
        g < 256,
        b < 256,
        a < 256,
    ensures
        chan_r(pack_channels(r, g, b, a)) == r,
        chan_g(pack_channels(r, g, b, a)) == g,
        chan_b(pack_channels(r, g, b, a)) == b,
        chan_a(pack_channels(r, g, b, a)) == a,
{
}

/// Unpacking a color into its four channels and packing them returns the
/// same color.
pub proof fn lemma_unpack_pack(c: u32)
    by (bit_vector)
    ensures
        pack_channels(chan_r(c), chan_g(c), chan_b(c), chan_a(c)) == c,
{
}

/// Widening a color to 128 bits and narrowing it back returns the same color.
pub proof fn lemma_wide_round_trip(c: u32)
    by (bit_vector)
    ensures
        from_wide(wide_of(c)) == c,
{
}

/// Spread a packed 32-bit color over 32-bit lanes of a 128-bit integer.
pub fn to_rgba(color: &u32) -> (r: u128)
    ensures
        r == wide_of(*color),
{
    let c = *color;
    let cr = c & 0xff;
    let cg = (c >> 8) & 0xff;
    let cb = (c >> 16) & 0xff;
    let ca = (c >> 24) & 0xff;
    ((ca as u128) << 96) | ((cr as u128) << 64) | ((cg as u128) << 32) | (cb as u128)
}

/// Pack the 32-bit lanes of a wide color back into one 32-bit color.
pub fn from_rgba(color: u128) -> (r: u32)
    ensures
        r == from_wide(color),
{
    let l0 = (color & 0xff) as u32;
    let l1 = ((color >> 32) & 0xff) as u32;
    let l2 = ((color >> 64) & 0xff) as u32;
    let l3 = ((color >> 96) & 0xff) as u32;
    (l3 << 24) | (l0 << 16) | (l1 << 8) | l2
}

/// Linear interpolation of one channel: the value `weight/FP_ONE` of the way
/// from `a` to `b`, truncated toward zero.
pub open spec fn lerp_chan(a: int, b: int, weight: int) -> int {
    (a * (FP_ONE - weight) + b * weight) / (FP_ONE as int)
}

/// Linear interpolation of a packed color, each of the four channels blended
/// independently and symmetrically.
pub open spec fn lerp_color(c1: u32, c2: u32, weight: int) -> u32 {
    pack_channels(
        lerp_chan(chan_r(c1) as int, chan_r(c2) as int, weight) as u32,
        lerp_chan(chan_g(c1) as int, chan_g(c2) as int, weight) as u32,
        lerp_chan(chan_b(c1) as int, chan_b(c2) as int, weight) as u32,
        lerp_chan(chan_a(c1) as int, chan_a(c2) as int, weight) as u32,
    )
}

/// A blend of two bytes stays a byte, and the blend arithmetic stays small.
pub proof fn lemma_lerp_chan_bound(a: int, b: int, weight: int)
    by (nonlinear_arith)
    requires
        0 <= a < 256,
        0 <= b < 256,
        0 <= weight <= 65536,
    ensures
        0 <= a * (65536 - weight) + b * weight <= 255 * 65536,
        0 <= (a * (65536 - weight) + b * weight) / 65536 <= 255,
{
}

/// Blending with weight 0 returns the first color; with weight `FP_ONE`, the
/// second.
pub proof fn lemma_lerp_endpoints(c1: u32, c2: u32)
    ensures
        lerp_color(c1, c2, 0) == c1,
        lerp_color(c1, c2, FP_ONE as int) == c2,
{
    lemma_chan_bounds(c1);
    lemma_chan_bounds(c2);
    assert forall|a: int, b: int|
        0 <= a < 256 && 0 <= b < 256 implies lerp_chan(a, b, 0) == a && lerp_chan(
        a,
        b,
        FP_ONE as int,
    ) == b by {
        assert((a * 65536 + b * 0) / 65536 == a) by (nonlinear_arith);
        assert((a * 0 + b * 65536) / 65536 == b) by (nonlinear_arith);
    }
    lemma_unpack_pack(c1);
    lemma_unpack_pack(c2);
}

/// Linear interpolation of two packed colors with a fixed-point weight in
/// `[0, FP_ONE]`.
pub fn lin_inter(v1: u32, v2: u32, weight: u64) -> (r: u32)
    requires
        weight <= FP_ONE,
    ensures
        r == lerp_color(v1, v2, weight as int),
{
    proof {
        lemma_chan_bounds(v1);
        lemma_chan_bounds(v2);
    }
    let r1 = (v1 & 0xff) as u64;
    let g1 = ((v1 >> 8) & 0xff) as u64;
    let b1 = ((v1 >> 16) & 0xff) as u64;
    let a1 = ((v1 >> 24) & 0xff) as u64;
    let r2 = (v2 & 0xff) as u64;
    let g2 = ((v2 >> 8) & 0xff) as u64;
    let b2 = ((v2 >> 16) & 0xff) as u64;
    let a2 = ((v2 >> 24) & 0xff) as u64;
    proof {
        lemma_lerp_chan_bound(r1 as int, r2 as int, weight as int);
        lemma_lerp_chan_bound(g1 as int, g2 as int, weight as int);
        lemma_lerp_chan_bound(b1 as int, b2 as int, weight as int);
        lemma_lerp_chan_bound(a1 as int, a2 as int, weight as int);
    }
    let rr = (r1 * (FP_ONE - weight) + r2 * weight) / FP_ONE;
    let rg = (g1 * (FP_ONE - weight) + g2 * weight) / FP_ONE;
    let rb = (b1 * (FP_ONE - weight) + b2 * weight) / FP_ONE;
    let ra = (a1 * (FP_ONE - weight) + a2 * weight) / FP_ONE;
    ((ra as u32) << 24) | ((rb as u32) << 16) | ((rg as u32) << 8) | (rr as u32)
}

/// Pixel lookup in a row-major sequence of packed colors.
pub open spec fn pix_of(s: Seq<u32>, w: int, x: int, y: int) -> u32 {
    s[x + y * w]
}

/// A dense raster of packed 32-bit colors, row-major.
pub struct ScreenImage {
    pub vector: Vec<u32>,
    pub width: usize,
    pub height: usize,
}

impl ScreenImage {
    /// Well-formedness: the pixel storage covers exactly width*height pixels.
    pub open spec fn wf(&self) -> bool {
        self.vector@.len() == self.width * self.height
    }

    /// The pixel at `(x, y)`, row-major.
    pub open spec fn pixel(&self, x: int, y: int) -> u32 {
        pix_of(self.vector@, self.width as int, x, y)
    }

    pub fn new(vector: Vec<u32>, width: usize, height: usize) -> (r: ScreenImage)
        ensures
            r.vector == vector,
            r.width == width,
            r.height == height,
    {
        ScreenImage { vector, width, height }
    }

    pub fn get_vector(&self) -> (r: &Vec<u32>)
        ensures
            r == &self.vector,
    {
        &self.vector
    }

    pub fn set_vector(&mut self, new: Vec<u32>)
        ensures
            final(self).vector == new,
            final(self).width == old(self).width,
            final(self).height == old(self).height,
    {
        self.vector = new;
    }

    pub fn width(&self) -> (w: usize)
        ensures
            w == self.width,
    {
        self.width
    }

    pub fn height(&self) -> (h: usize)
        ensures
            h == self.height,
    {
        self.height
    }

    /// Read the pixel at `(x, y)`.
    pub fn index(&self, x: usize, y: usize) -> (r: &u32)
        requires
            self.wf(),
            x < self.width,
            y < self.height,
        ensures
            *r == self.pixel(x as int, y as int),
    {
        let n = self.vector.len();
        proof {
            lemma_row_major_index_in_range(
                self.width as int,
                self.height as int,
                x as int,
                y as int,
            );
            assert(x + y * self.width < n);
        }
        &self.vector[x + y * self.width]
    }

    /// Borrow the pixel at `(x, y)` for writing; every other pixel keeps its
    /// value.
    pub fn index_mut(&mut self, x: usize, y: usize) -> (r: &mut u32)
        requires
            old(self).wf(),
            x < old(self).width,
            y < old(self).height,
        ensures
            *r == old(self).pixel(x as int, y as int),
            final(self).wf(),
            final(self).width == old(self).width,
            final(self).height == old(self).height,
            final(self).pixel(x as int, y as int) == *final(r),
            forall|i: int, j: int|
                0 <= i < old(self).width && 0 <= j < old(self).height && !(i == x && j == y)
                    ==> #[trigger] final(self).pixel(i, j) == old(self).pixel(i, j),
    {
        let n = self.vector.len();
        proof {
            lemma_row_major_index_in_range(
                self.width as int,
                self.height as int,
                x as int,
                y as int,
            );
            assert(x + y * self.width < n);
            lemma_pix_update_frame(
                self.vector@,
                self.width as int,
                self.height as int,
                x as int,
                y as int,
            );
        }
        let idx = x + y * self.width;
        &mut self.vector[idx]
    }

    /// Copy a stored color out of the buffer representation.
    pub fn copy(input: &u32) -> (r: u32)
        ensures
            r == *input,
    {
        *input
    }

    /// A blank (all-zero) raster of the same dimensions.
    pub fn new_clear(&self) -> (r: ScreenImage)
        requires
            self.wf(),
        ensures
            r.wf(),
            r.width == self.width,
            r.height == self.height,
            forall|k: int| 0 <= k < r.vector@.len() ==> r.vector@[k] == 0u32,
    {
        let n = self.vector.len();
        let mut vector: Vec<u32> = Vec::new();
        let mut i: usize = 0;
        while i < n
            invariant
                i <= n,
                vector@.len() == i,
                forall|k: int| 0 <= k < i ==> vector@[k] == 0u32,
            decreases n - i,
        {
            vector.push(0);
            i += 1;
        }
        ScreenImage { vector, width: self.width, height: self.height }
    }

    /// Nearest-neighbor sampling at the fixed-point coordinate `(xq, yq)`:
    /// each axis is rounded to the nearest whole pixel and clamped to the
    /// raster.
    pub fn get_nearest(&self, xq: u64, yq: u64) -> (r: u32)
        requires
            self.wf(),
            0 < self.width,
            0 < self.height,
            xq <= u64::MAX - FP_HALF,
            yq <= u64::MAX - FP_HALF,
        ensures
            r == sample_nearest(*self, xq as int, yq as int),
    {
        let w = self.width;
        let h = self.height;
        let mut xi = (xq + FP_HALF) / FP_ONE;
        if xi >= w as u64 {
            xi = w as u64 - 1;
        }
        let mut yi = (yq + FP_HALF) / FP_ONE;
        if yi >= h as u64 {
            yi = h as u64 - 1;
        }
        *self.index(xi as usize, yi as usize)
    }

    /// Bilinear sampling at the fixed-point coordinate `(xq, yq)`. The four
    /// pixels around the coordinate are blended with its fractional parts as
    /// weights; at the last column or row the missing side is left out and
    /// the remaining samples are used alone.
    pub fn get_bilin(&self, xq: u64, yq: u64) -> (r: u32)
        requires
            self.wf(),
            self.width <= 0x1_0000_0000,
            self.height <= 0x1_0000_0000,
            xq < self.width as int * FP_ONE,
            yq < self.height as int * FP_ONE,
        ensures
            r == sample_bilin(*self, xq as int, yq as int),
    {
        let w = self.width;
        let h = self.height;
        let fx = xq % FP_ONE;
        let fy = yq % FP_ONE;
        proof {
            lemma_div_below(xq as int, FP_ONE as int, w as int);
            lemma_div_below(yq as int, FP_ONE as int, h as int);
        }
        let x1 = (xq / FP_ONE) as usize;
        let y1 = (yq / FP_ONE) as usize;
        let has_x2 = xq + FP_ONE < (w as u64) * FP_ONE;
        let has_y2 = yq + FP_ONE < (h as u64) * FP_ONE;
        proof {
            if has_x2 {
                lemma_div_add_one(xq as int, FP_ONE as int);
                lemma_div_below(xq as int + FP_ONE, FP_ONE as int, w as int);
            }
            if has_y2 {
                lemma_div_add_one(yq as int, FP_ONE as int);
                lemma_div_below(yq as int + FP_ONE, FP_ONE as int, h as int);
            }
        }
        if has_x2 {
            let x2 = x1 + 1;
            let v1 = lin_inter(*self.index(x1, y1), *self.index(x2, y1), fx);
            if has_y2 {
                let y2 = y1 + 1;
                let v2 = lin_inter(*self.index(x1, y2), *self.index(x2, y2), fx);
                lin_inter(v1, v2, fy)
            } else {
                v1
            }
        } else {
            let v1 = *self.index(x1, y1);
            if has_y2 {
                let y2 = y1 + 1;
                lin_inter(v1, *self.index(x1, y2), fy)
            } else {
                ScreenImage::copy(&v1)
            }
        }
    }
}

/// Rounding a fixed-point coordinate to the nearest whole pixel, clamped to
/// `[0, dim)`.
pub open spec fn nearest_coord(q: int, dim: int) -> int {
    let r = (q + FP_HALF) / (FP_ONE as int);
    if r >= dim {
        dim - 1
    } else {
        r
    }
}

/// What nearest-neighbor sampling returns at `(xq, yq)`.
pub open spec fn sample_nearest(img: ScreenImage, xq: int, yq: int) -> u32 {
    img.pixel(nearest_coord(xq, img.width as int), nearest_coord(yq, img.height as int))
}

/// What bilinear sampling returns at `(xq, yq)`.
pub open spec fn sample_bilin(img: ScreenImage, xq: int, yq: int) -> u32 {
    let x1 = xq / (FP_ONE as int);
    let y1 = yq / (FP_ONE as int);
    let fx = xq % (FP_ONE as int);
    let fy = yq % (FP_ONE as int);
    let has_x2 = xq + FP_ONE < img.width * FP_ONE;
    let has_y2 = yq + FP_ONE < img.height * FP_ONE;
    if has_x2 {
        let v1 = lerp_color(img.pixel(x1, y1), img.pixel(x1 + 1, y1), fx);
        if has_y2 {
            lerp_color(v1, lerp_color(img.pixel(x1, y1 + 1), img.pixel(x1 + 1, y1 + 1), fx), fy)
        } else {
            v1
        }
    } else {
        if has_y2 {
            lerp_color(img.pixel(x1, y1), img.pixel(x1, y1 + 1), fy)
        } else {
            img.pixel(x1, y1)
        }
    }
}

/// The source coordinate that output column or row `o` reads under a zoom
/// factor and a pan offset, all in fixed point: `off + o/zoom`.
pub open spec fn src_coord(off: int, o: int, zoom: int) -> int {
    off + (o * FP_ONE * FP_ONE) / zoom
}

/// Writing one pixel of a row-major raster leaves every other coordinate
/// unchanged, whatever is written.
proof fn lemma_pix_update_frame(s: Seq<u32>, w: int, h: int, x: int, y: int)
    requires
        0 <= x < w,
        0 <= y < h,
        s.len() == w * h,
    ensures
        forall|v: u32, i: int, j: int|
            0 <= i < w && 0 <= j < h && !(i == x && j == y) ==> #[trigger] pix_of(
                s.update(x + y * w, v),
                w,
                i,
                j,
            ) == pix_of(s, w, i, j),
{
    assert forall|v: u32, i: int, j: int|
        0 <= i < w && 0 <= j < h && !(i == x && j == y) implies #[trigger] pix_of(
        s.update(x + y * w, v),
        w,
        i,
        j,
    ) == pix_of(s, w, i, j) by {
        lemma_row_major_index_in_range(w, h, i, j);
        lemma_row_major_index_in_range(w, h, x, y);
        lemma_row_major_index_unique(w, i, j, x, y);
    }
}

/// A nonnegative value below `n*d` divides by `d` to below `n`.
proof fn lemma_div_below(q: int, d: int, n: int)
    by (nonlinear_arith)
    requires
        d > 0,
        0 <= q < n * d,
    ensures
        0 <= q / d < n,
{
}

/// Adding one whole unit to the numerator advances the quotient by one.
proof fn lemma_div_add_one(q: int, d: int)
    by (nonlinear_arith)
    requires
        d > 0,
        q >= 0,
    ensures
        (q + d) / d == q / d + 1,
{
}

/// Dividing by at least one does not grow a nonnegative value.
proof fn lemma_div_le_self(q: int, d: int)
    by (nonlinear_arith)
    requires
        q >= 0,
        d >= 1,
    ensures
        0 <= q / d <= q,
{
}

/// The source coordinate grows with the output coordinate.
proof fn lemma_src_coord_mono(a: int, b: int, d: int)
    by (nonlinear_arith)
    requires
        0 <= a <= b,
        d > 0,
    ensures
        0 <= (a * 65536 * 65536) / d <= (b * 65536 * 65536) / d,
{
}

/// Resample a raster in place with nearest-neighbor sampling: afterwards the
/// pixel at `(ox, oy)` holds the old raster sampled at `offset + (ox, oy)/factor`.
pub fn zoom_nearest_self(field: &mut ScreenImage, factor: u64, offset: (u64, u64))
    requires
        old(field).wf(),
        0 < old(field).width <= 0x10000,
        0 < old(field).height <= 0x10000,
        FP_ONE <= factor,
        offset.0 <= old(field).width as int * FP_ONE,
        offset.1 <= old(field).height as int * FP_ONE,
    ensures
        final(field).wf(),
        final(field).width == old(field).width,
        final(field).height == old(field).height,
        forall|ox: int, oy: int|
            0 <= ox < old(field).width && 0 <= oy < old(field).height ==> #[trigger] final(field).pixel(ox, oy) == sample_nearest(
                *old(field),
                src_coord(offset.0 as int, ox, factor as int),
                src_coord(offset.1 as int, oy, factor as int),
            ),
{
    let w = field.width;
    let h = field.height;
    let mut buff = field.new_clear();
    let mut y: usize = 0;
    while y < h
        invariant
            *field == *old(field),
            field.wf(),
            w == field.width,
            h == field.height,
            0 < w <= 0x10000,
            0 < h <= 0x10000,
            FP_ONE <= factor,
            offset.0 <= w as int * FP_ONE,
            offset.1 <= h as int * FP_ONE,
            buff.wf(),
            buff.width == w,
            buff.height == h,
            y <= h,
            forall|i: int, j: int|
                0 <= i < w && 0 <= j < y ==> #[trigger] buff.pixel(i, j) == sample_nearest(
                    *field,
                    src_coord(offset.0 as int, i, factor as int),
                    src_coord(offset.1 as int, j, factor as int),
                ),
        decreases h - y,
    {
        let mut x: usize = 0;
        while x < w
            invariant
                *field == *old(field),
                field.wf(),
                w == field.width,
                h == field.height,
                0 < w <= 0x10000,
                0 < h <= 0x10000,
                FP_ONE <= factor,
                offset.0 <= w as int * FP_ONE,
                offset.1 <= h as int * FP_ONE,
                buff.wf(),
                buff.width == w,
                buff.height == h,
                y < h,
                x <= w,
                forall|i: int, j: int|
                    0 <= i < w && 0 <= j < y ==> #[trigger] buff.pixel(i, j) == sample_nearest(
                        *field,
                        src_coord(offset.0 as int, i, factor as int),
                        src_coord(offset.1 as int, j, factor as int),
                    ),
                forall|i: int|
                    0 <= i < x ==> #[trigger] buff.pixel(i, y as int) == sample_nearest(
                        *field,
                        src_coord(offset.0 as int, i, factor as int),
                        src_coord(offset.1 as int, y as int, factor as int),
                    ),
            decreases w - x,
        {
            proof {
                lemma_div_le_self((x as u64 * FP_ONE * FP_ONE) as int, factor as int);
                lemma_div_le_self((y as u64 * FP_ONE * FP_ONE) as int, factor as int);
            }
            let sx = offset.0 + (x as u64 * FP_ONE * FP_ONE) / factor;
            let sy = offset.1 + (y as u64 * FP_ONE * FP_ONE) / factor;
            let v = field.get_nearest(sx, sy);
            *buff.index_mut(x, y) = v;
            x += 1;
        }
        y += 1;
    }
    *field = buff;
}

/// Resample a raster in place with bilinear sampling: afterwards the pixel at
/// `(ox, oy)` holds the old raster sampled at `offset + (ox, oy)/factor`. The
/// offset must leave every sampled coordinate on the raster.
pub fn zoom_bilin_self(field: &mut ScreenImage, factor: u64, offset: (u64, u64))
    requires
        old(field).wf(),
        0 < old(field).width <= 0x10000,
        0 < old(field).height <= 0x10000,
        FP_ONE <= factor,
        offset.0 as int + ((old(field).width - 1) as int * FP_ONE * FP_ONE) / (factor as int)
            < old(field).width as int * FP_ONE,
        offset.1 as int + ((old(field).height - 1) as int * FP_ONE * FP_ONE) / (factor as int)
            < old(field).height as int * FP_ONE,
    ensures
        final(field).wf(),
        final(field).width == old(field).width,
        final(field).height == old(field).height,
        forall|ox: int, oy: int|
            0 <= ox < old(field).width && 0 <= oy < old(field).height ==> #[trigger] final(field).pixel(ox, oy) == sample_bilin(
                *old(field),
                src_coord(offset.0 as int, ox, factor as int),
                src_coord(offset.1 as int, oy, factor as int),
            ),
{
    let w = field.width;
    let h = field.height;
    let mut buff = field.new_clear();
    let mut y: usize = 0;
    while y < h
        invariant
            *field == *old(field),
            field.wf(),
            w == field.width,
            h == field.height,
            0 < w <= 0x10000,
            0 < h <= 0x10000,
            FP_ONE <= factor,
            offset.0 as int + ((w - 1) as int * FP_ONE * FP_ONE) / (factor as int) < w as int
                * FP_ONE,
            offset.1 as int + ((h - 1) as int * FP_ONE * FP_ONE) / (factor as int) < h as int
                * FP_ONE,
            buff.wf(),
            buff.width == w,
            buff.height == h,
            y <= h,
            forall|i: int, j: int|
                0 <= i < w && 0 <= j < y ==> #[trigger] buff.pixel(i, j) == sample_bilin(
                    *field,
                    src_coord(offset.0 as int, i, factor as int),
                    src_coord(offset.1 as int, j, factor as int),
                ),
        decreases h - y,
    {
        let mut x: usize = 0;
        while x < w
            invariant
                *field == *old(field),
                field.wf(),
                w == field.width,
                h == field.height,
                0 < w <= 0x10000,
                0 < h <= 0x10000,
                FP_ONE <= factor,
                offset.0 as int + ((w - 1) as int * FP_ONE * FP_ONE) / (factor as int) < w as int
                    * FP_ONE,
                offset.1 as int + ((h - 1) as int * FP_ONE * FP_ONE) / (factor as int) < h as int
                    * FP_ONE,
                buff.wf(),
                buff.width == w,
                buff.height == h,
                y < h,
                x <= w,
                forall|i: int, j: int|
                    0 <= i < w && 0 <= j < y ==> #[trigger] buff.pixel(i, j) == sample_bilin(
                        *field,
                        src_coord(offset.0 as int, i, factor as int),
                        src_coord(offset.1 as int, j, factor as int),
                    ),
                forall|i: int|
                    0 <= i < x ==> #[trigger] buff.pixel(i, y as int) == sample_bilin(
                        *field,
                        src_coord(offset.0 as int, i, factor as int),
                        src_coord(offset.1 as int, y as int, factor as int),
                    ),
            decreases w - x,
        {
            proof {
                lemma_div_le_self((x as u64 * FP_ONE * FP_ONE) as int, factor as int);
                lemma_div_le_self((y as u64 * FP_ONE * FP_ONE) as int, factor as int);
                lemma_src_coord_mono(x as int, (w - 1) as int, factor as int);
                lemma_src_coord_mono(y as int, (h - 1) as int, factor as int);
            }
            let sx = offset.0 + (x as u64 * FP_ONE * FP_ONE) / factor;
            let sy = offset.1 + (y as u64 * FP_ONE * FP_ONE) / factor;
            let v = field.get_bilin(sx, sy);
            *buff.index_mut(x, y) = v;
            x += 1;
        }
        y += 1;
    }
    *field = buff;
}

/// A whole-pixel fixed-point coordinate divides back to its pixel, has no
/// fractional part, and rounds to its pixel.
proof fn lemma_fp_whole(o: int)
    by (nonlinear_arith)
    requires
        o >= 0,
    ensures
        (o * 65536) / 65536 == o,
        (o * 65536) % 65536 == 0,
        (o * 65536 + 32768) / 65536 == o,
        (o * 65536 * 65536) / 65536 == o * 65536,
{
}

/// Both samplers return the corner pixel unchanged when sampled at the last
/// valid whole coordinate `(width-1, height-1)`.
pub proof fn lemma_corner_sample(img: ScreenImage)
    requires
        img.wf(),
        0 < img.width,
        0 < img.height,
    ensures
        sample_nearest(img, (img.width - 1) * (FP_ONE as int), (img.height - 1) * (FP_ONE as int))
            == img.pixel(img.width - 1, img.height - 1),
        sample_bilin(img, (img.width - 1) * (FP_ONE as int), (img.height - 1) * (FP_ONE as int))
            == img.pixel(img.width - 1, img.height - 1),
{
    lemma_fp_whole(img.width - 1);
    lemma_fp_whole(img.height - 1);
}

/// Rendering with zoom factor 1 and offset `(0, 0)` under nearest sampling
/// reproduces the source raster pixel for pixel.
pub proof fn lemma_identity_zoom_reproduces_source(src: ScreenImage, out: ScreenImage)
    requires
        src.wf(),
        out.wf(),
        out.width == src.width,
        out.height == src.height,
        forall|ox: int, oy: int|
            0 <= ox < src.width && 0 <= oy < src.height ==> #[trigger] out.pixel(ox, oy)
                == sample_nearest(
                src,
                src_coord(0, ox, FP_ONE as int),
                src_coord(0, oy, FP_ONE as int),
            ),
    ensures
        forall|ox: int, oy: int|
            0 <= ox < src.width && 0 <= oy < src.height ==> #[trigger] out.pixel(ox, oy)
                == src.pixel(ox, oy),
{
    assert forall|ox: int, oy: int|
        0 <= ox < src.width && 0 <= oy < src.height implies #[trigger] out.pixel(ox, oy)
        == src.pixel(ox, oy) by {
        lemma_fp_whole(ox);
        lemma_fp_whole(oy);
        assert(src_coord(0, ox, FP_ONE as int) == ox * 65536);
        assert(src_coord(0, oy, FP_ONE as int) == oy * 65536);
        assert(nearest_coord(ox * 65536, src.width as int) == ox);
        assert(nearest_coord(oy * 65536, src.height as int) == oy);
    }
}

/// The edge of the visible window `off + dim/factor`, truncated to the field.
pub open spec fn crop_bound(dim: int, factor: int, off: int) -> int {
    let b = off + (dim * FP_ONE) / factor;
    if b > dim {
        dim
    } else {
        b
    }
}

/// Cut the window of a field that a zoom factor and an offset leave visible:
/// the cells from `offset` up to `offset + dim/factor` on each axis, as a
/// field of their own.
pub fn crop(field: &Field, factor: u64, offset: (usize, usize)) -> (r: Field)
    requires
        field.wf(),
        factor > 0,
        field.width <= 0x10000,
        field.height <= 0x10000,
        offset.0 <= field.width,
        offset.1 <= field.height,
    ensures
        r.wf(),
        r.width == crop_bound(field.width as int, factor as int, offset.0 as int) - offset.0,
        r.height == crop_bound(field.height as int, factor as int, offset.1 as int) - offset.1,
        forall|x: int, y: int|
            0 <= x < r.width && 0 <= y < r.height ==> #[trigger] r.cell(x, y) == field.cell(
                offset.0 + x,
                offset.1 + y,
            ),
{
    let w = field.width;
    let h = field.height;
    proof {
        lemma_div_le_self((w as u64 * FP_ONE) as int, factor as int);
        lemma_div_le_self((h as u64 * FP_ONE) as int, factor as int);
    }
    let xb = (w as u64 * FP_ONE) / factor;
    let wb = if xb + offset.0 as u64 >= w as u64 {
        w
    } else {
        (xb + offset.0 as u64) as usize
    };
    let yb = (h as u64 * FP_ONE) / factor;
    let hb = if yb + offset.1 as u64 >= h as u64 {
        h
    } else {
        (yb + offset.1 as u64) as usize
    };
    let out_w = wb - offset.0;
    let out_h = hb - offset.1;
    let mut vector: Vec<bool> = Vec::new();
    let mut y = offset.1;
    while y < hb
        invariant
            field.wf(),
            w == field.width,
            h == field.height,
            offset.0 <= wb <= w,
            offset.1 <= y,
            y <= hb <= h,
            out_w == wb - offset.0,
            out_h == hb - offset.1,
            vector@.len() == (y - offset.1) * out_w,
            forall|i: int, j: int|
                0 <= i < out_w && 0 <= j < y - offset.1 ==> #[trigger] cell_of(
                    vector@,
                    out_w as int,
                    i,
                    j,
                ) == field.cell(offset.0 + i, offset.1 + j),
        decreases hb - y,
    {
        let mut x = offset.0;
        while x < wb
            invariant
                field.wf(),
                w == field.width,
                h == field.height,
                offset.0 <= x,
                x <= wb <= w,
                offset.1 <= y,
                y < hb <= h,
                out_w == wb - offset.0,
                out_h == hb - offset.1,
                vector@.len() == (y - offset.1) * out_w + (x - offset.0),
                forall|i: int, j: int|
                    0 <= i < out_w && 0 <= j < y - offset.1 ==> #[trigger] cell_of(
                        vector@,
                        out_w as int,
                        i,
                        j,
                    ) == field.cell(offset.0 + i, offset.1 + j),
                forall|i: int|
                    0 <= i < x - offset.0 ==> #[trigger] cell_of(
                        vector@,
                        out_w as int,
                        i,
                        (y - offset.1) as int,
                    ) == field.cell(offset.0 + i, offset.1 + (y - offset.1)),
            decreases wb - x,
        {
            let ghost pre = vector@;
            vector.push(field.get(x, y));
            proof {
                let ow = out_w as int;
                let cy = y - offset.1;
                assert(cell_of(vector@, ow, x - offset.0, cy as int) == field.cell(
                    offset.0 + (x - offset.0),
                    offset.1 + cy,
                ));
                assert forall|i: int, j: int| 0 <= i < out_w && 0 <= j < cy implies #[trigger] cell_of(
                    vector@,
                    ow,
                    i,
                    j,
                ) == field.cell(offset.0 + i, offset.1 + j) by {
                    lemma_row_major_below_row(ow, i, j, cy as int);
                    assert(cell_of(pre, ow, i, j) == field.cell(offset.0 + i, offset.1 + j));
                    assert(vector@[i + j * ow] == pre[i + j * ow]);
                }
                assert forall|i: int| 0 <= i < x + 1 - offset.0 implies #[trigger] cell_of(
                    vector@,
                    ow,
                    i,
                    cy as int,
                ) == field.cell(offset.0 + i, offset.1 + cy) by {
                    if i < x - offset.0 {
                        assert(cell_of(pre, ow, i, cy as int) == field.cell(
                            offset.0 + i,
                            offset.1 + cy,
                        ));
                        assert(vector@[i + cy * ow] == pre[i + cy * ow]);
                    }
                }
            }
            x += 1;
        }
        proof {
            assert((y + 1 - offset.1) * (out_w as int) == (y - offset.1) * (out_w as int)
                + out_w) by (nonlinear_arith);
        }
        y += 1;
    }
    proof {
        assert((out_h as int) * (out_w as int) == (out_w as int) * (out_h as int))
            by (nonlinear_arith);
    }
    Field::new(vector, out_w, out_h)
}

} // verus!
