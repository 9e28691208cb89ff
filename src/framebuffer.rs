//! The depth-tested framebuffer: a packed color buffer and a depth buffer
//! written only through a single point primitive.
use vstd::prelude::*;

verus! {

/// The depth that every pixel holds after a clear: no depth key is farther.
/// It is the key of positive infinity (see `depth::depth_key`).
pub const FAR_DEPTH: u32 = 0xFF80_0000;

/// One candidate pixel write: a position, an ordered depth key and a packed color.
#[derive(Clone, Copy, Debug, PartialEq, Eq, Structural)]
pub struct PixelWrite {
    pub x: usize,
    pub y: usize,
    pub depth: u32,
    pub color: u32,
}

/// The mathematical state of a framebuffer.
pub struct FrameView {
    pub width: nat,
    pub height: nat,
    pub colors: Seq<u32>,
    pub depths: Seq<u32>,
    pub background: u32,
    pub current: u32,
}

impl FrameView {
    pub open spec fn wf(self) -> bool {
        &&& self.colors.len() == self.width * self.height
        &&& self.depths.len() == self.width * self.height
    }

    pub open spec fn in_bounds(self, x: int, y: int) -> bool {
        0 <= x < self.width && 0 <= y < self.height
    }

    /// The buffer position of pixel `(x, y)`, rows stored one after another.
    pub open spec fn index(self, x: int, y: int) -> int {
        y * self.width + x
    }

    /// The depth test: an in-bounds write strictly nearer than the stored
    /// depth replaces that pixel's color and depth; any other write changes nothing.
    pub open spec fn plot(self, x: int, y: int, depth: u32, color: u32) -> FrameView {
        let i = self.index(x, y);
        if self.in_bounds(x, y) && depth < self.depths[i] {
            FrameView {
                colors: self.colors.update(i, color),
                depths: self.depths.update(i, depth),
                ..self
            }
        } else {
            self
        }
    }

    pub open spec fn apply(self, w: PixelWrite) -> FrameView {
        self.plot(w.x as int, w.y as int, w.depth, w.color)
    }

    /// The state after the writes of `ws`, in order.
    pub open spec fn apply_all(self, ws: Seq<PixelWrite>) -> FrameView
        decreases ws.len(),
    {
        if ws.len() == 0 {
            self
        } else {
            self.apply_all(ws.drop_last()).apply(ws.last())
        }
    }

    /// Every color set to the background and every depth to `FAR_DEPTH`.
    pub open spec fn cleared(self) -> FrameView {
        FrameView {
            colors: Seq::new(self.width * self.height, |i: int| self.background),
            depths: Seq::new(self.width * self.height, |i: int| FAR_DEPTH),
            ..self
        }
    }
}

pub open spec fn abs(v: int) -> int {
    if v < 0 {
        -v
    } else {
        v
    }
}

/// The step directions point toward the end point and the error deltas have
/// their signs: the conditions under which the walk advances.
pub open spec fn walk_ok(x: int, y: int, x1: int, y1: int, dx: int, dy: int, sx: int, sy: int) -> bool {
    &&& dy <= 0 <= dx
    &&& (x < x1 ==> sx == 1)
    &&& (x > x1 ==> sx == -1)
    &&& (y < y1 ==> sy == 1)
    &&& (y > y1 ==> sy == -1)
}

/// The pixels that the integer line walk visits from `(x, y)` to `(x1, y1)`
/// with error term `err`: each step moves along x when twice the error is at
/// least `dy`, along y when it is at most `dx`, and the walk stops at the end
/// point or when a step would leave the end point's column or row.
pub open spec fn line_from(
    x: int,
    y: int,
    x1: int,
    y1: int,
    dx: int,
    dy: int,
    sx: int,
    sy: int,
    err: int,
) -> Seq<(int, int)>
    decreases abs(x1 - x) + abs(y1 - y),
    when walk_ok(x, y, x1, y1, dx, dy, sx, sy)
{
    let e2 = 2 * err;
    if x == x1 && y == y1 {
        seq![(x, y)]
    } else if e2 >= dy && x == x1 {
        seq![(x, y)]
    } else if e2 <= dx && y == y1 {
        seq![(x, y)]
    } else {
        let nx = if e2 >= dy { x + sx } else { x };
        let ny = if e2 <= dx { y + sy } else { y };
        let nerr = err + (if e2 >= dy { dy } else { 0 }) + (if e2 <= dx { dx } else { 0 });
        seq![(x, y)] + line_from(nx, ny, x1, y1, dx, dy, sx, sy, nerr)
    }
}

/// The pixels of the line from `(x0, y0)` to `(x1, y1)`, in drawing order.
pub open spec fn line_points(x0: int, y0: int, x1: int, y1: int) -> Seq<(int, int)> {
    let dx = abs(x1 - x0);
    let dy = -abs(y1 - y0);
    let sx = if x0 < x1 { 1int } else { -1int };
    let sy = if y0 < y1 { 1int } else { -1int };
    line_from(x0, y0, x1, y1, dx, dy, sx, sy, dx + dy)
}

proof fn lemma_line_from_ends(
    x: int,
    y: int,
    x1: int,
    y1: int,
    dx: int,
    dy: int,
    sx: int,
    sy: int,
    err: int,
)
    requires
        walk_ok(x, y, x1, y1, dx, dy, sx, sy),
        abs(x1 - x) <= dx,
        abs(y1 - y) <= -dy,
        err == dx + dy - dx * abs(y1 - y) - dy * abs(x1 - x),
    ensures
        line_from(x, y, x1, y1, dx, dy, sx, sy, err).len() >= 1,
        line_from(x, y, x1, y1, dx, dy, sx, sy, err)[0] == (x, y),
        line_from(x, y, x1, y1, dx, dy, sx, sy, err).last() == (x1, y1),
    decreases abs(x1 - x) + abs(y1 - y),
{
    let rx = abs(x1 - x);
    let ry = abs(y1 - y);
    let e2 = 2 * err;
    if x == x1 && y == y1 {
    } else {
        if x == x1 {
            assert(dx * ry >= dx) by (nonlinear_arith)
                requires ry >= 1, dx >= 0;
            assert(dy * rx == 0) by (nonlinear_arith)
                requires rx == 0;
            assert(e2 < dy);
        }
        if y == y1 {
            assert(dy * rx <= dy) by (nonlinear_arith)
                requires rx >= 1, dy <= 0;
            assert(dx * ry == 0) by (nonlinear_arith)
                requires ry == 0;
            assert(e2 > dx);
        }
        let nx = if e2 >= dy { x + sx } else { x };
        let ny = if e2 <= dx { y + sy } else { y };
        let nerr = err + (if e2 >= dy { dy } else { 0 }) + (if e2 <= dx { dx } else { 0 });
        let nrx = abs(x1 - nx);
        let nry = abs(y1 - ny);
        assert(nrx == (if e2 >= dy { rx - 1 } else { rx }));
        assert(nry == (if e2 <= dx { ry - 1 } else { ry }));
        assert(dx * (ry - 1) == dx * ry - dx) by (nonlinear_arith);
        assert(dy * (rx - 1) == dy * rx - dy) by (nonlinear_arith);
        lemma_line_from_ends(nx, ny, x1, y1, dx, dy, sx, sy, nerr);
    }
}

/// A line's pixels run from its first end point to its second.
pub proof fn lemma_line_endpoints(x0: int, y0: int, x1: int, y1: int)
    ensures
        line_points(x0, y0, x1, y1).len() >= 1,
        line_points(x0, y0, x1, y1)[0] == (x0, y0),
        line_points(x0, y0, x1, y1).last() == (x1, y1),
{
    let dx = abs(x1 - x0);
    let dy = -abs(y1 - y0);
    assert(dx * abs(y1 - y0) + dy * abs(x1 - x0) == 0) by (nonlinear_arith)
        requires dx == abs(x1 - x0), dy == -abs(y1 - y0);
    lemma_line_from_ends(
        x0,
        y0,
        x1,
        y1,
        dx,
        dy,
        if x0 < x1 { 1int } else { -1int },
        if y0 < y1 { 1int } else { -1int },
        dx + dy,
    );
}

impl FrameView {
    /// The state after depth-tested writes of `color` at `depth` to each point,
    /// in order; points outside the buffer are skipped.
    pub open spec fn plot_points(self, pts: Seq<(int, int)>, depth: u32, color: u32) -> FrameView
        decreases pts.len(),
    {
        if pts.len() == 0 {
            self
        } else {
            self.plot_points(pts.drop_last(), depth, color).plot(
                pts.last().0,
                pts.last().1,
                depth,
                color,
            )
        }
    }
}

/// A color buffer and a depth buffer of `width * height` entries each.
pub struct Framebuffer {
    width: usize,
    height: usize,
    buffer: Vec<u32>,
    zbuffer: Vec<u32>,
    background_color: u32,
    current_color: u32,
}

impl View for Framebuffer {
    type V = FrameView;

    closed spec fn view(&self) -> FrameView {
        FrameView {
            width: self.width as nat,
            height: self.height as nat,
            colors: self.buffer@,
            depths: self.zbuffer@,
            background: self.background_color,
            current: self.current_color,
        }
    }
}

proof fn lemma_index_bound(w: int, h: int, x: int, y: int)
    requires
        0 <= x < w,
        0 <= y < h,
    ensures
        0 <= y * w + x < w * h,
{
    assert(0 <= y * w + x < w * h) by (nonlinear_arith)
        requires 0 <= x < w, 0 <= y < h;
}

proof fn lemma_index_injective(w: int, x1: int, y1: int, x2: int, y2: int)
    requires
        0 <= x1 < w,
        0 <= x2 < w,
        0 <= y1,
        0 <= y2,
        y1 * w + x1 == y2 * w + x2,
    ensures
        x1 == x2,
        y1 == y2,
{
    if y1 < y2 {
        assert(y1 * w + w <= y2 * w) by (nonlinear_arith)
            requires y1 < y2, w > 0;
    } else if y2 < y1 {
        assert(y2 * w + w <= y1 * w) by (nonlinear_arith)
            requires y2 < y1, w > 0;
    }
}

impl Framebuffer {
    pub closed spec fn wf(&self) -> bool {
        &&& self@.wf()
        &&& self@.width * self@.height <= usize::MAX
    }

    pub fn width(&self) -> (w: usize)
        ensures
            w == self@.width,
    {
        self.width
    }

    pub fn height(&self) -> (h: usize)
        ensures
            h == self@.height,
    {
        self.height
    }

    /// A framebuffer of the given size, cleared to a black background, with
    /// white as the current draw color.
    pub fn new(width: usize, height: usize) -> (fb: Framebuffer)
        requires
            width * height <= usize::MAX,
        ensures
            fb.wf(),
            fb@.width == width,
            fb@.height == height,
            fb@.background == 0,
            fb@.current == 0xFF_FFFF,
            fb@ == fb@.cleared(),
    {
        let n = width * height;
        let mut buffer: Vec<u32> = Vec::new();
        let mut zbuffer: Vec<u32> = Vec::new();
        let mut i: usize = 0;
        while i < n
            invariant
                i <= n,
                buffer@ == Seq::new(i as nat, |k: int| 0u32),
                zbuffer@ == Seq::new(i as nat, |k: int| FAR_DEPTH),
            decreases n - i,
        {
            buffer.push(0);
            zbuffer.push(FAR_DEPTH);
            i = i + 1;
            assert(buffer@ =~= Seq::new(i as nat, |k: int| 0u32));
            assert(zbuffer@ =~= Seq::new(i as nat, |k: int| FAR_DEPTH));
        }
        let fb = Framebuffer {
            width,
            height,
            buffer,
            zbuffer,
            background_color: 0,
            current_color: 0xFF_FFFF,
        };
        assert(fb@.colors =~= fb@.cleared().colors);
        assert(fb@.depths =~= fb@.cleared().depths);
        fb
    }

    /// Resets every color to the background and every depth to `FAR_DEPTH`.
    pub fn clear(&mut self)
        requires
            old(self).wf(),
        ensures
            final(self).wf(),
            final(self)@ == old(self)@.cleared(),
    {
        let n = self.buffer.len();
        let mut i: usize = 0;
        while i < n
            invariant
                i <= n,
                n == self.width * self.height,
                self.width == old(self).width,
                self.height == old(self).height,
                self.background_color == old(self).background_color,
                self.current_color == old(self).current_color,
                self.buffer@.len() == n,
                self.zbuffer@.len() == n,
                forall|k: int| 0 <= k < i ==> self.buffer@[k] == self.background_color,
                forall|k: int| 0 <= k < i ==> self.zbuffer@[k] == FAR_DEPTH,
            decreases n - i,
        {
            self.buffer.set(i, self.background_color);
            self.zbuffer.set(i, FAR_DEPTH);
            i = i + 1;
        }
        assert(self@.colors =~= old(self)@.cleared().colors);
        assert(self@.depths =~= old(self)@.cleared().depths);
    }

    pub fn set_background_color(&mut self, color: u32)
        ensures
            final(self)@ == (FrameView { background: color, ..old(self)@ }),
    {
        self.background_color = color;
    }

    pub fn set_current_color(&mut self, color: u32)
        ensures
            final(self)@ == (FrameView { current: color, ..old(self)@ }),
    {
        self.current_color = color;
    }

    fn plot_color(&mut self, x: usize, y: usize, depth: u32, color: u32)
        requires
            old(self).wf(),
            x < old(self)@.width,
            y < old(self)@.height,
        ensures
            final(self).wf(),
            final(self)@ == old(self)@.plot(x as int, y as int, depth, color),
    {
        proof {
            lemma_index_bound(self.width as int, self.height as int, x as int, y as int);
        }
        let i = y * self.width + x;
        if depth < self.zbuffer[i] {
            self.buffer.set(i, color);
            self.zbuffer.set(i, depth);
        }
    }

    /// The depth-tested write of the current draw color at `(x, y)`.
    pub fn point(&mut self, x: usize, y: usize, depth: u32)
        requires
            old(self).wf(),
            x < old(self)@.width,
            y < old(self)@.height,
        ensures
            final(self).wf(),
            final(self)@ == old(self)@.plot(x as int, y as int, depth, old(self)@.current),
    {
        let c = self.current_color;
        self.plot_color(x, y, depth, c);
    }

    /// Applies each write in order, dropping those outside the buffer; the
    /// current draw color is left as it was.
    pub fn plot_all(&mut self, writes: &Vec<PixelWrite>)
        requires
            old(self).wf(),
        ensures
            final(self).wf(),
            final(self)@ == old(self)@.apply_all(writes@),
    {
        let mut i: usize = 0;
        while i < writes.len()
            invariant
                i <= writes@.len(),
                self.wf(),
                self@ == old(self)@.apply_all(writes@.take(i as int)),
            decreases writes@.len() - i,
        {
            let w = writes[i];
            if w.x < self.width && w.y < self.height {
                self.plot_color(w.x, w.y, w.depth, w.color);
            }
            assert(writes@.take(i + 1).drop_last() =~= writes@.take(i as int));
            i = i + 1;
        }
        assert(writes@.take(i as int) =~= writes@);
    }

    fn plot_signed(&mut self, x: i64, y: i64, depth: u32, color: u32)
        requires
            old(self).wf(),
        ensures
            final(self).wf(),
            final(self)@ == old(self)@.plot(x as int, y as int, depth, color),
    {
        if x >= 0 && y >= 0 && (x as u64) < (self.width as u64) && (y as u64) < (self.height as u64) {
            self.plot_color(x as usize, y as usize, depth, color);
        }
    }

    /// Draws the line from `(x0, y0)` to `(x1, y1)` in the current draw color,
    /// every pixel at `depth` and depth-tested; pixels outside the buffer are skipped.
    pub fn draw_line(&mut self, x0: i32, y0: i32, x1: i32, y1: i32, depth: u32)
        requires
            old(self).wf(),
        ensures
            final(self).wf(),
            final(self)@ == old(self)@.plot_points(
                line_points(x0 as int, y0 as int, x1 as int, y1 as int),
                depth,
                old(self)@.current,
            ),
    {
        let (x0, y0, x1, y1) = (x0 as i64, y0 as i64, x1 as i64, y1 as i64);
        let dx: i64 = if x1 >= x0 { x1 - x0 } else { x0 - x1 };
        let dy: i64 = if y1 >= y0 { y0 - y1 } else { y1 - y0 };
        let sx: i64 = if x0 < x1 { 1 } else { -1 };
        let sy: i64 = if y0 < y1 { 1 } else { -1 };
        let mut err: i64 = dx + dy;
        let mut x: i64 = x0;
        let mut y: i64 = y0;
        let color = self.current_color;
        let ghost full = line_points(x0 as int, y0 as int, x1 as int, y1 as int);
        let ghost mut done: Seq<(int, int)> = Seq::empty();
        loop
            invariant_except_break
                done + line_from(x as int, y as int, x1 as int, y1 as int, dx as int, dy as int, sx as int, sy as int, err as int) == full,
            invariant
                self.wf(),
                color == old(self)@.current,
                i32::MIN <= x0 <= i32::MAX,
                i32::MIN <= y0 <= i32::MAX,
                i32::MIN <= x1 <= i32::MAX,
                i32::MIN <= y1 <= i32::MAX,
                dx == abs(x1 - x0),
                dy == -abs(y1 - y0),
                sx == (if x0 < x1 { 1int } else { -1int }),
                sy == (if y0 < y1 { 1int } else { -1int }),
                2 * dy <= err <= 2 * dx,
                x0 <= x <= x1 || x1 <= x <= x0,
                y0 <= y <= y1 || y1 <= y <= y0,
                walk_ok(x as int, y as int, x1 as int, y1 as int, dx as int, dy as int, sx as int, sy as int),
                self@ == old(self)@.plot_points(done, depth, color),
            ensures
                self.wf(),
                self@ == old(self)@.plot_points(full, depth, color),
            decreases abs(x1 - x) + abs(y1 - y),
        {
            let ghost rest = line_from(x as int, y as int, x1 as int, y1 as int, dx as int, dy as int, sx as int, sy as int, err as int);
            self.plot_signed(x, y, depth, color);
            proof {
                let nd = done.push((x as int, y as int));
                assert(nd.drop_last() == done);
                assert(self@ == old(self)@.plot_points(nd, depth, color));
                done = nd;
            }
            if x == x1 && y == y1 {
                assert(done =~= full);
                break;
            }
            let e2 = 2 * err;
            if e2 >= dy {
                if x == x1 {
                    assert(done =~= full);
                    break;
                }
            }
            if e2 <= dx {
                if y == y1 {
                    assert(done =~= full);
                    break;
                }
            }
            let ghost nerr = err + (if e2 >= dy { dy } else { 0 }) + (if e2 <= dx { dx } else { 0 });
            if e2 >= dy {
                err = err + dy;
                x = x + sx;
            }
            if e2 <= dx {
                err = err + dx;
                y = y + sy;
            }
            proof {
                let tail = line_from(x as int, y as int, x1 as int, y1 as int, dx as int, dy as int, sx as int, sy as int, err as int);
                assert(err == nerr);
                assert(rest == seq![(rest[0].0, rest[0].1)] + tail);
                assert(done + tail =~= (done.drop_last() + rest));
            }
        }
    }

    /// The packed color at `(x, y)`.
    pub fn get_pixel(&self, x: usize, y: usize) -> (c: u32)
        requires
            self.wf(),
            x < self@.width,
            y < self@.height,
        ensures
            c == self@.colors[self@.index(x as int, y as int)],
    {
        proof {
            lemma_index_bound(self.width as int, self.height as int, x as int, y as int);
        }
        self.buffer[y * self.width + x]
    }

    /// The depth key stored at `(x, y)`.
    pub fn get_depth(&self, x: usize, y: usize) -> (d: u32)
        requires
            self.wf(),
            x < self@.width,
            y < self@.height,
        ensures
            d == self@.depths[self@.index(x as int, y as int)],
    {
        proof {
            lemma_index_bound(self.width as int, self.height as int, x as int, y as int);
        }
        self.zbuffer[y * self.width + x]
    }

    /// The color buffer, row after row, for presenting.
    pub fn pixels(&self) -> (p: &Vec<u32>)
        ensures
            p@ == self@.colors,
    {
        &self.buffer
    }
}

/// Clearing twice is the same as clearing once, and after a clear every depth
/// entry is `FAR_DEPTH`, so any nearer key passes the depth test.
pub proof fn lemma_clear_idempotent(f: FrameView)
    ensures
        f.cleared().cleared() == f.cleared(),
        f.cleared().wf(),
        forall|i: int| 0 <= i < f.cleared().depths.len() ==> #[trigger] f.cleared().depths[i] == FAR_DEPTH,
{
    assert(f.cleared().cleared().colors =~= f.cleared().colors);
    assert(f.cleared().cleared().depths =~= f.cleared().depths);
}

proof fn lemma_apply_all_shape(f: FrameView, ws: Seq<PixelWrite>)
    requires
        f.wf(),
    ensures
        f.apply_all(ws).wf(),
        f.apply_all(ws).width == f.width,
        f.apply_all(ws).height == f.height,
    decreases ws.len(),
{
    if ws.len() > 0 {
        lemma_apply_all_shape(f, ws.drop_last());
        let g = f.apply_all(ws.drop_last());
        let w = ws.last();
        let wi = g.index(w.x as int, w.y as int);
        if g.in_bounds(w.x as int, w.y as int) && w.depth < g.depths[wi] {
            lemma_index_bound(g.width as int, g.height as int, w.x as int, w.y as int);
        }
    }
}

/// What one buffer entry holds after a sequence of writes: a depth no farther
/// than it held before nor than any write that hits it, and either the entry
/// as it was or the color and depth of one such write that was strictly nearer
/// than the entry at first.
pub proof fn lemma_pixel_outcome(f: FrameView, ws: Seq<PixelWrite>, k: int)
    requires
        f.wf(),
        0 <= k < f.colors.len(),
    ensures
        f.apply_all(ws).wf(),
        f.apply_all(ws).width == f.width,
        f.apply_all(ws).height == f.height,
        f.apply_all(ws).depths[k] <= f.depths[k],
        forall|i: int|
            0 <= i < ws.len() && f.in_bounds(ws[i].x as int, ws[i].y as int) && f.index(
                ws[i].x as int,
                ws[i].y as int,
            ) == k ==> f.apply_all(ws).depths[k] <= #[trigger] ws[i].depth,
        (f.apply_all(ws).depths[k] == f.depths[k] && f.apply_all(ws).colors[k] == f.colors[k])
            || exists|i: int|
            0 <= i < ws.len() && f.in_bounds(ws[i].x as int, ws[i].y as int) && f.index(
                ws[i].x as int,
                ws[i].y as int,
            ) == k && ws[i].depth < f.depths[k] && #[trigger] ws[i].depth == f.apply_all(
                ws,
            ).depths[k] && ws[i].color == f.apply_all(ws).colors[k],
    decreases ws.len(),
{
    if ws.len() > 0 {
        let ws0 = ws.drop_last();
        let w = ws.last();
        lemma_pixel_outcome(f, ws0, k);
        let g = f.apply_all(ws0);
        let h = f.apply_all(ws);
        assert(h == g.apply(w));
        let wi = g.index(w.x as int, w.y as int);
        let written = g.in_bounds(w.x as int, w.y as int) && w.depth < g.depths[wi];
        if written {
            lemma_index_bound(g.width as int, g.height as int, w.x as int, w.y as int);
            assert(h.depths == g.depths.update(wi, w.depth));
            assert(h.colors == g.colors.update(wi, w.color));
        } else {
            assert(h == g);
        }
        assert(h.wf());
        assert forall|i: int|
            0 <= i < ws.len() && f.in_bounds(ws[i].x as int, ws[i].y as int) && f.index(
                ws[i].x as int,
                ws[i].y as int,
            ) == k implies h.depths[k] <= #[trigger] ws[i].depth by {
            if i < ws0.len() {
                assert(ws[i] == ws0[i]);
            }
        }
        if !(g.depths[k] == h.depths[k] && g.colors[k] == h.colors[k]) {
            let i = ws.len() - 1;
            assert(ws[i] == w);
            assert(written);
            assert(wi == k);
        } else if !(h.depths[k] == f.depths[k] && h.colors[k] == f.colors[k]) {
            let i = choose|i: int|
                0 <= i < ws0.len() && f.in_bounds(ws0[i].x as int, ws0[i].y as int) && f.index(
                    ws0[i].x as int,
                    ws0[i].y as int,
                ) == k && ws0[i].depth < f.depths[k] && #[trigger] ws0[i].depth == g.depths[k]
                    && ws0[i].color == g.colors[k];
            assert(ws[i] == ws0[i]);
        }
    }
}

/// The depth test makes the final buffer independent of the order of the
/// writes: any two orderings of the same writes give the same colors and
/// depths, provided no two writes to one pixel share a depth with different colors.
pub proof fn lemma_depth_test_order_independent(
    f: FrameView,
    ws1: Seq<PixelWrite>,
    ws2: Seq<PixelWrite>,
)
    requires
        f.wf(),
        ws1.to_multiset() == ws2.to_multiset(),
        forall|i: int, j: int|
            0 <= i < ws1.len() && 0 <= j < ws1.len() && ws1[i].x == ws1[j].x && ws1[i].y
                == ws1[j].y && ws1[i].depth == ws1[j].depth ==> #[trigger] ws1[i].color
                == #[trigger] ws1[j].color,
    ensures
        f.apply_all(ws1).colors == f.apply_all(ws2).colors,
        f.apply_all(ws1).depths == f.apply_all(ws2).depths,
{
    broadcast use vstd::seq_lib::group_to_multiset_ensures;

    let r1 = f.apply_all(ws1);
    let r2 = f.apply_all(ws2);
    assert forall|k: int| 0 <= k < f.colors.len() implies r1.depths[k] == r2.depths[k]
        && r1.colors[k] == r2.colors[k] by {
        lemma_pixel_outcome(f, ws1, k);
        lemma_pixel_outcome(f, ws2, k);
        let hits1 = exists|i: int|
            0 <= i < ws1.len() && f.in_bounds(ws1[i].x as int, ws1[i].y as int) && f.index(
                ws1[i].x as int,
                ws1[i].y as int,
            ) == k && ws1[i].depth < f.depths[k] && #[trigger] ws1[i].depth == r1.depths[k]
                && ws1[i].color == r1.colors[k];
        let hits2 = exists|j: int|
            0 <= j < ws2.len() && f.in_bounds(ws2[j].x as int, ws2[j].y as int) && f.index(
                ws2[j].x as int,
                ws2[j].y as int,
            ) == k && ws2[j].depth < f.depths[k] && #[trigger] ws2[j].depth == r2.depths[k]
                && ws2[j].color == r2.colors[k];
        if hits1 && hits2 {
            let i = choose|i: int|
                0 <= i < ws1.len() && f.in_bounds(ws1[i].x as int, ws1[i].y as int) && f.index(
                    ws1[i].x as int,
                    ws1[i].y as int,
                ) == k && ws1[i].depth < f.depths[k] && #[trigger] ws1[i].depth == r1.depths[k]
                    && ws1[i].color == r1.colors[k];
            let j = choose|j: int|
                0 <= j < ws2.len() && f.in_bounds(ws2[j].x as int, ws2[j].y as int) && f.index(
                    ws2[j].x as int,
                    ws2[j].y as int,
                ) == k && ws2[j].depth < f.depths[k] && #[trigger] ws2[j].depth == r2.depths[k]
                    && ws2[j].color == r2.colors[k];
            let a = ws1[i];
            let b = ws2[j];
            assert(ws1.contains(a));
            assert(ws2.contains(b));
            assert(ws1.to_multiset().count(a) > 0);
            assert(ws2.to_multiset().count(b) > 0);
            assert(ws2.contains(a));
            assert(ws1.contains(b));
            let ia = choose|t: int| 0 <= t < ws2.len() && ws2[t] == a;
            let jb = choose|t: int| 0 <= t < ws1.len() && ws1[t] == b;
            assert(r2.depths[k] <= ws2[ia].depth);
            assert(r1.depths[k] <= ws1[jb].depth);
            lemma_index_injective(f.width as int, a.x as int, a.y as int, b.x as int, b.y as int);
            assert(ws1[i].color == ws1[jb].color);
        } else if hits1 {
            let i = choose|i: int|
                0 <= i < ws1.len() && f.in_bounds(ws1[i].x as int, ws1[i].y as int) && f.index(
                    ws1[i].x as int,
                    ws1[i].y as int,
                ) == k && ws1[i].depth < f.depths[k] && #[trigger] ws1[i].depth == r1.depths[k]
                    && ws1[i].color == r1.colors[k];
            let a = ws1[i];
            assert(ws1.contains(a));
            assert(ws1.to_multiset().count(a) > 0);
            assert(ws2.contains(a));
            let ia = choose|t: int| 0 <= t < ws2.len() && ws2[t] == a;
            assert(r2.depths[k] <= ws2[ia].depth);
        } else if hits2 {
            let j = choose|j: int|
                0 <= j < ws2.len() && f.in_bounds(ws2[j].x as int, ws2[j].y as int) && f.index(
                    ws2[j].x as int,
                    ws2[j].y as int,
                ) == k && ws2[j].depth < f.depths[k] && #[trigger] ws2[j].depth == r2.depths[k]
                    && ws2[j].color == r2.colors[k];
            let b = ws2[j];
            assert(ws2.contains(b));
            assert(ws2.to_multiset().count(b) > 0);
            assert(ws1.contains(b));
            let jb = choose|t: int| 0 <= t < ws1.len() && ws1[t] == b;
            assert(r1.depths[k] <= ws1[jb].depth);
        }
    }
    lemma_apply_all_shape(f, ws1);
    lemma_apply_all_shape(f, ws2);
    assert(r1.colors =~= r2.colors);
    assert(r1.depths =~= r2.depths);
}

} // verus!
