use vstd::prelude::*;

verus! {

use crate::scale::FP_ONE;

/// Smallest zoom factor: 1.0 in fixed point.
pub const ZOOM_MIN: u64 = 65536;

/// Largest zoom factor: 20.0 in fixed point.
pub const ZOOM_MAX: u64 = 20 * 65536;

/// Clamp an integer into `[lo, hi]`.
pub open spec fn clamp_int(v: int, lo: int, hi: int) -> int {
    if v < lo {
        lo
    } else if v > hi {
        hi
    } else {
        v
    }
}

/// The largest pan offset that still keeps the visible window on the field:
/// `dim - dim/zoom`, in fixed point.
pub open spec fn max_offset(dim: int, zoom: int) -> int {
    dim * FP_ONE - (dim * FP_ONE * FP_ONE) / zoom
}

/// How many fixed-point units of the source are visible across `disp_px`
/// display pixels under a zoom factor: `disp_px / zoom` in fixed point.
pub open spec fn visible_size(disp_px: int, zoom: int) -> int {
    (disp_px * FP_ONE * FP_ONE) / zoom
}

/// `delta * scale / FP_ONE`, truncated toward zero for either sign of `delta`.
pub open spec fn scaled_by(delta: int, scale: int) -> int {
    if delta >= 0 {
        (delta * scale) / (FP_ONE as int)
    } else {
        -((-delta * scale) / (FP_ONE as int))
    }
}

/// `delta * FP_ONE / den`, truncated toward zero for either sign of `delta`.
pub open spec fn div_toward_zero(delta: int, den: int) -> int {
    if delta >= 0 {
        (delta * FP_ONE) / den
    } else {
        -((-delta * FP_ONE) / den)
    }
}

/// The zoom factor after a scroll of `delta`: speed-scaled, then clamped into
/// `[ZOOM_MIN, ZOOM_MAX]`.
pub open spec fn zoom_after(zoom: int, delta: int, speed: int) -> int {
    clamp_int(zoom + scaled_by(delta, speed), ZOOM_MIN as int, ZOOM_MAX as int)
}

/// The pan offset after a zoom change: shifted by half the visible-size change
/// weighted by where the cursor sits on the screen, then clamped.
pub open spec fn offset_after_scroll(
    off: int,
    old_size: int,
    new_size: int,
    cursor: int,
    disp_px: int,
    max_off: int,
) -> int {
    let moved = if new_size <= old_size {
        off + ((old_size - new_size) * cursor) / (disp_px * FP_ONE) / 2
    } else {
        off - ((new_size - old_size) * cursor) / (disp_px * FP_ONE) / 2
    };
    clamp_int(moved, 0, max_off)
}

/// The pan offset after a drag of `delta` screen units: shifted against the
/// drag, scaled down by zoom and presentation magnification, then clamped.
pub open spec fn offset_after_drag(off: int, delta: int, zoom: int, ws: int, max_off: int) -> int {
    clamp_int(off - div_toward_zero(delta, zoom * ws), 0, max_off)
}

/// The pan-and-zoom state of the view onto a field, all in fixed point, plus
/// the fixed configuration it was built with.
pub struct Viewport {
    /// Zoom factor, in `[ZOOM_MIN, ZOOM_MAX]`.
    pub zoom: u64,
    /// Pan offset along x, in `[0, max_offset(width, zoom)]`.
    pub offset_x: u64,
    /// Pan offset along y, in `[0, max_offset(height, zoom)]`.
    pub offset_y: u64,
    /// Field width in cells.
    pub width: usize,
    /// Field height in cells.
    pub height: usize,
    /// Fixed presentation magnification of the display surface, in whole
    /// screen pixels per field cell.
    pub window_scale: u64,
    /// Zoom change per unit of scroll, in fixed point.
    pub zoom_speed: u64,
}

impl Viewport {
    /// The clamp invariant: the zoom factor is in range and each offset keeps
    /// the visible window on the field.
    pub open spec fn wf(&self) -> bool {
        0 < self.width <= 0x10000 && 0 < self.height <= 0x10000 && 1 <= self.window_scale <= 256
            && self.zoom_speed <= 16 * FP_ONE && ZOOM_MIN <= self.zoom <= ZOOM_MAX
            && self.offset_x as int <= max_offset(self.width as int, self.zoom as int)
            && self.offset_y as int <= max_offset(self.height as int, self.zoom as int)
    }

    /// A fresh view: zoom 1, no pan.
    pub fn new(width: usize, height: usize, window_scale: u64, zoom_speed: u64) -> (v: Viewport)
        requires
            0 < width <= 0x10000,
            0 < height <= 0x10000,
            1 <= window_scale <= 256,
            zoom_speed <= 16 * FP_ONE,
        ensures
            v.wf(),
            v.zoom == ZOOM_MIN,
            v.offset_x == 0,
            v.offset_y == 0,
            v.width == width,
            v.height == height,
            v.window_scale == window_scale,
            v.zoom_speed == zoom_speed,
    {
        proof {
            lemma_whole_division(width as int);
            lemma_whole_division(height as int);
        }
        Viewport { zoom: ZOOM_MIN, offset_x: 0, offset_y: 0, width, height, window_scale, zoom_speed }
    }
}

/// The full transition of a scroll event: zoom toward the cursor, then clamp
/// both offsets to the window the new zoom leaves valid.
pub open spec fn scroll_spec(v: Viewport, delta: int, cursor_x: int, cursor_y: int) -> Viewport {
    let zoom2 = zoom_after(v.zoom as int, delta, v.zoom_speed as int);
    let dispx = v.width as int * v.window_scale as int;
    let dispy = v.height as int * v.window_scale as int;
    Viewport {
        zoom: zoom2 as u64,
        offset_x: offset_after_scroll(
            v.offset_x as int,
            visible_size(dispx, v.zoom as int),
            visible_size(dispx, zoom2),
            cursor_x,
            dispx,
            max_offset(v.width as int, zoom2),
        ) as u64,
        offset_y: offset_after_scroll(
            v.offset_y as int,
            visible_size(dispy, v.zoom as int),
            visible_size(dispy, zoom2),
            cursor_y,
            dispy,
            max_offset(v.height as int, zoom2),
        ) as u64,
        width: v.width,
        height: v.height,
        window_scale: v.window_scale,
        zoom_speed: v.zoom_speed,
    }
}

/// The full transition of a drag event: both offsets shifted against the drag
/// and clamped; the zoom is untouched.
pub open spec fn drag_spec(v: Viewport, dx: int, dy: int) -> Viewport {
    Viewport {
        zoom: v.zoom,
        offset_x: offset_after_drag(
            v.offset_x as int,
            dx,
            v.zoom as int,
            v.window_scale as int,
            max_offset(v.width as int, v.zoom as int),
        ) as u64,
        offset_y: offset_after_drag(
            v.offset_y as int,
            dy,
            v.zoom as int,
            v.window_scale as int,
            max_offset(v.height as int, v.zoom as int),
        ) as u64,
        width: v.width,
        height: v.height,
        window_scale: v.window_scale,
        zoom_speed: v.zoom_speed,
    }
}

/// The grid coordinate under a screen coordinate: undo the presentation
/// magnification and the zoom, then add the pan offset.
pub open spec fn grid_coord(s: int, ws: int, zoom: int, off: int) -> int {
    (s * FP_ONE) / (ws * zoom) + off
}

impl Viewport {
    /// Apply a scroll event: the zoom factor moves by `delta` scaled by the
    /// zoom speed and is clamped to `[ZOOM_MIN, ZOOM_MAX]`; the offsets move
    /// by half the visible-size change weighted by the cursor's position on
    /// the screen, and are clamped.
    pub fn scroll(&mut self, delta: i64, cursor_x: u64, cursor_y: u64)
        requires
            old(self).wf(),
            cursor_x as int <= old(self).width as int * old(self).window_scale as int * FP_ONE,
            cursor_y as int <= old(self).height as int * old(self).window_scale as int * FP_ONE,
        ensures
            *final(self) == scroll_spec(
                *old(self),
                delta as int,
                cursor_x as int,
                cursor_y as int,
            ),
            final(self).wf(),
    {
        let ghost v0 = *self;
        let speed = self.zoom_speed;
        proof {
            if delta >= 0 {
                lemma_mul_bounds(delta as int, speed as int, 0x8000_0000_0000_0000, 0x100000);
            } else {
                lemma_mul_bounds(-(delta as int), speed as int, 0x8000_0000_0000_0000, 0x100000);
            }
        }
        let zi: i128 = if delta >= 0 {
            self.zoom as i128 + (((delta as u128) * (speed as u128)) / 65536) as i128
        } else {
            self.zoom as i128 - ((((-(delta as i128)) as u128) * (speed as u128)) / 65536) as i128
        };
        let zoom2: u64 = if zi < ZOOM_MIN as i128 {
            ZOOM_MIN
        } else if zi > ZOOM_MAX as i128 {
            ZOOM_MAX
        } else {
            zi as u64
        };
        assert(zoom2 as int == zoom_after(v0.zoom as int, delta as int, v0.zoom_speed as int));
        let ox = scroll_axis(self.offset_x, self.width, self.window_scale, self.zoom, zoom2, cursor_x);
        let oy = scroll_axis(self.offset_y, self.height, self.window_scale, self.zoom, zoom2, cursor_y);
        self.zoom = zoom2;
        self.offset_x = ox;
        self.offset_y = oy;
        proof {
            lemma_scroll_spec_wf(v0, delta as int, cursor_x as int, cursor_y as int);
        }
    }

    /// Apply a drag event: both offsets move against the drag, scaled down by
    /// the zoom and the presentation magnification, and are clamped.
    pub fn drag(&mut self, dx: i64, dy: i64)
        requires
            old(self).wf(),
        ensures
            *final(self) == drag_spec(*old(self), dx as int, dy as int),
            final(self).wf(),
    {
        let ghost v0 = *self;
        let ox = drag_axis(self.offset_x, self.width, self.window_scale, self.zoom, dx);
        let oy = drag_axis(self.offset_y, self.height, self.window_scale, self.zoom, dy);
        self.offset_x = ox;
        self.offset_y = oy;
        proof {
            lemma_drag_spec_wf(v0, dx as int, dy as int);
        }
    }

    /// Map a screen coordinate back to the grid coordinate it shows: the
    /// exact inverse of the rendering transform.
    pub fn screen_to_grid(&self, sx: u64, sy: u64) -> (r: (u64, u64))
        requires
            self.wf(),
            sx <= 0x1_0000_0000_0000,
            sy <= 0x1_0000_0000_0000,
        ensures
            r.0 as int == grid_coord(
                sx as int,
                self.window_scale as int,
                self.zoom as int,
                self.offset_x as int,
            ),
            r.1 as int == grid_coord(
                sy as int,
                self.window_scale as int,
                self.zoom as int,
                self.offset_y as int,
            ),
    {
        proof {
            lemma_mul_range(
                self.window_scale as int,
                self.zoom as int,
                1,
                256,
                ZOOM_MIN as int,
                ZOOM_MAX as int,
            );
        }
        let den: u128 = (self.window_scale as u128) * (self.zoom as u128);
        proof {
            lemma_div_scale_le(sx as int, 65536, den as int);
            lemma_div_scale_le(sy as int, 65536, den as int);
            lemma_visible_bounds(self.width as int, self.zoom as int);
            lemma_visible_bounds(self.height as int, self.zoom as int);
        }
        let gx = (((sx as u128) * 65536) / den) as u64 + self.offset_x;
        let gy = (((sy as u128) * 65536) / den) as u64 + self.offset_y;
        (gx, gy)
    }
}

/// One pan offset after a scroll event, in executable form.
fn scroll_axis(off: u64, dim: usize, ws: u64, zoom_old: u64, zoom_new: u64, cursor: u64) -> (r:
    u64)
    requires
        0 < dim <= 0x10000,
        1 <= ws <= 256,
        ZOOM_MIN <= zoom_old <= ZOOM_MAX,
        ZOOM_MIN <= zoom_new <= ZOOM_MAX,
        off as int <= max_offset(dim as int, zoom_old as int),
        cursor as int <= dim as int * ws as int * FP_ONE,
    ensures
        r as int == offset_after_scroll(
            off as int,
            visible_size(dim as int * ws as int, zoom_old as int),
            visible_size(dim as int * ws as int, zoom_new as int),
            cursor as int,
            dim as int * ws as int,
            max_offset(dim as int, zoom_new as int),
        ),
{
    proof {
        lemma_mul_range(dim as int, ws as int, 1, 0x10000, 1, 256);
    }
    let disp: u64 = (dim as u64) * ws;
    proof {
        lemma_visible_bounds(disp as int, zoom_old as int);
        lemma_visible_bounds(disp as int, zoom_new as int);
        lemma_visible_bounds(dim as int, zoom_old as int);
    }
    let old_s: u64 = (((disp as u128) * 65536 * 65536) / (zoom_old as u128)) as u64;
    let new_s: u64 = (((disp as u128) * 65536 * 65536) / (zoom_new as u128)) as u64;
    let moved: u64 = if new_s <= old_s {
        proof {
            lemma_mul_bounds(
                (old_s - new_s) as int,
                cursor as int,
                0x100_0000_0000,
                0x100_0000_0000,
            );
            lemma_div_scale_le((old_s - new_s) as int, cursor as int, disp as int * 65536);
        }
        let adj = ((((old_s - new_s) as u128) * (cursor as u128)) / ((disp as u128) * 65536)
            / 2) as u64;
        off + adj
    } else {
        proof {
            lemma_mul_bounds(
                (new_s - old_s) as int,
                cursor as int,
                0x100_0000_0000,
                0x100_0000_0000,
            );
            lemma_div_scale_le((new_s - old_s) as int, cursor as int, disp as int * 65536);
        }
        let adj = ((((new_s - old_s) as u128) * (cursor as u128)) / ((disp as u128) * 65536)
            / 2) as u64;
        if adj > off {
            0
        } else {
            off - adj
        }
    };
    clamp_to_max(moved, dim, zoom_new)
}

/// One pan offset after a drag event, in executable form.
fn drag_axis(off: u64, dim: usize, ws: u64, zoom: u64, delta: i64) -> (r: u64)
    requires
        0 < dim <= 0x10000,
        1 <= ws <= 256,
        ZOOM_MIN <= zoom <= ZOOM_MAX,
        off as int <= max_offset(dim as int, zoom as int),
    ensures
        r as int == offset_after_drag(
            off as int,
            delta as int,
            zoom as int,
            ws as int,
            max_offset(dim as int, zoom as int),
        ),
{
    proof {
        lemma_mul_range(zoom as int, ws as int, ZOOM_MIN as int, ZOOM_MAX as int, 1, 256);
    }
    let den: u128 = (zoom as u128) * (ws as u128);
    proof {
        lemma_visible_bounds(dim as int, zoom as int);
    }
    let moved: u64 = if delta >= 0 {
        proof {
            lemma_div_scale_le(delta as int, 65536, den as int);
        }
        let m = (((delta as u128) * 65536) / den) as u64;
        if m > off {
            0
        } else {
            off - m
        }
    } else {
        proof {
            lemma_div_scale_le(-(delta as int), 65536, den as int);
        }
        let m = ((((-(delta as i128)) as u128) * 65536) / den) as u64;
        off + m
    };
    clamp_to_max(moved, dim, zoom)
}

/// Clamp a nonnegative offset to the largest offset the zoom allows.
fn clamp_to_max(t: u64, dim: usize, zoom: u64) -> (r: u64)
    requires
        0 < dim <= 0x10000,
        ZOOM_MIN <= zoom <= ZOOM_MAX,
    ensures
        r as int == clamp_int(t as int, 0, max_offset(dim as int, zoom as int)),
{
    proof {
        lemma_visible_bounds(dim as int, zoom as int);
    }
    let vis = (((dim as u128) * 65536 * 65536) / (zoom as u128)) as u64;
    let maxo = (dim as u64) * 65536 - vis;
    if t > maxo {
        maxo
    } else {
        t
    }
}

/// One pointer or wheel event, as the viewport controller sees it.
pub enum ViewportEvent {
    Scroll { delta: i64, cursor_x: u64, cursor_y: u64 },
    Drag { dx: i64, dy: i64 },
}

/// The transition one event makes on the viewport.
pub open spec fn step_spec(v: Viewport, e: ViewportEvent) -> Viewport {
    match e {
        ViewportEvent::Scroll { delta, cursor_x, cursor_y } => scroll_spec(
            v,
            delta as int,
            cursor_x as int,
            cursor_y as int,
        ),
        ViewportEvent::Drag { dx, dy } => drag_spec(v, dx as int, dy as int),
    }
}

/// The viewport after a whole sequence of events, first event first.
pub open spec fn apply_events(v: Viewport, events: Seq<ViewportEvent>) -> Viewport
    decreases events.len(),
{
    if events.len() == 0 {
        v
    } else {
        apply_events(step_spec(v, events[0]), events.drop_first())
    }
}

/// A scroll transition keeps the clamp invariant.
pub proof fn lemma_scroll_spec_wf(v: Viewport, delta: int, cursor_x: int, cursor_y: int)
    requires
        v.wf(),
    ensures
        scroll_spec(v, delta, cursor_x, cursor_y).wf(),
{
    let zoom2 = zoom_after(v.zoom as int, delta, v.zoom_speed as int);
    lemma_visible_bounds(v.width as int, zoom2);
    lemma_visible_bounds(v.height as int, zoom2);
}

/// A drag transition keeps the clamp invariant.
pub proof fn lemma_drag_spec_wf(v: Viewport, dx: int, dy: int)
    requires
        v.wf(),
    ensures
        drag_spec(v, dx, dy).wf(),
{
    lemma_visible_bounds(v.width as int, v.zoom as int);
    lemma_visible_bounds(v.height as int, v.zoom as int);
}

/// After any sequence of scroll and drag events on a well-formed viewport,
/// the offsets still satisfy the clamp invariant.
pub proof fn lemma_clamp_invariant_holds(v: Viewport, events: Seq<ViewportEvent>)
    requires
        v.wf(),
    ensures
        apply_events(v, events).wf(),
    decreases events.len(),
{
    if events.len() > 0 {
        let v1 = step_spec(v, events[0]);
        match events[0] {
            ViewportEvent::Scroll { delta, cursor_x, cursor_y } => {
                lemma_scroll_spec_wf(v, delta as int, cursor_x as int, cursor_y as int);
            },
            ViewportEvent::Drag { dx, dy } => {
                lemma_drag_spec_wf(v, dx as int, dy as int);
            },
        }
        lemma_clamp_invariant_holds(v1, events.drop_first());
    }
}

/// A well-formed viewport keeps every coordinate that bilinear rendering
/// samples inside the field, on both axes.
pub proof fn lemma_viewport_allows_bilinear(v: Viewport)
    requires
        v.wf(),
    ensures
        v.offset_x as int + ((v.width - 1) as int * FP_ONE * FP_ONE) / (v.zoom as int)
            < v.width as int * FP_ONE,
        v.offset_y as int + ((v.height - 1) as int * FP_ONE * FP_ONE) / (v.zoom as int)
            < v.height as int * FP_ONE,
{
    lemma_div_gap(
        v.width as int * 65536 * 65536,
        (v.width - 1) as int * 65536 * 65536,
        v.zoom as int,
    );
    lemma_div_gap(
        v.height as int * 65536 * 65536,
        (v.height - 1) as int * 65536 * 65536,
        v.zoom as int,
    );
}

/// When the numerators differ by at least the divisor, the quotients differ
/// by at least one.
proof fn lemma_div_gap(a: int, b: int, z: int)
    by (nonlinear_arith)
    requires
        0 <= b <= a,
        0 < z,
        a - b >= z,
    ensures
        b / z + 1 <= a / z,
{
}

/// Dividing a whole fixed-point span by a zoom of exactly one returns the span.
proof fn lemma_whole_division(d: int)
    by (nonlinear_arith)
    requires
        d >= 0,
    ensures
        (d * 65536 * 65536) / 65536 == d * 65536,
{
}

/// The visible span of a field never exceeds the field and is never negative.
proof fn lemma_visible_bounds(d: int, z: int)
    by (nonlinear_arith)
    requires
        0 <= d,
        65536 <= z,
    ensures
        0 <= (d * 65536 * 65536) / z <= d * 65536,
{
}

/// A product of nonnegative factors lies between the products of their
/// bounds.
proof fn lemma_mul_range(a: int, b: int, al: int, au: int, bl: int, bu: int)
    by (nonlinear_arith)
    requires
        0 <= al <= a <= au,
        0 <= bl <= b <= bu,
    ensures
        al * bl <= a * b <= au * bu,
{
}

/// A product of bounded nonnegative factors is bounded by the product of the
/// bounds.
proof fn lemma_mul_bounds(a: int, b: int, x: int, y: int)
    by (nonlinear_arith)
    requires
        0 <= a <= x,
        0 <= b <= y,
    ensures
        0 <= a * b <= x * y,
{
}

/// Scaling by a fraction of at most one does not grow a nonnegative value.
proof fn lemma_div_scale_le(a: int, b: int, c: int)
    by (nonlinear_arith)
    requires
        0 <= a,
        0 <= b <= c,
        0 < c,
    ensures
        0 <= (a * b) / c <= a,
{
}

} // verus!
