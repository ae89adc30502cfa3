//! The buffer-backed graphics backend: a rectangular grid of colors with
//! bounds-checked access, rasterization primitives, and a compression pass
//! that turns the grid into a minimal stream of output-device commands.

use vstd::prelude::*;
use vstd::string::StringExecFns;
use crate::graphics::{Color, OutputCommand, OutputOp, Style};
use crate::line::{abs, bres_points, bres_state, line_points, sign_toward};
use crate::rle::{commit_commands, commit_pairs, emitted, glyphs, newline_text, pair_commands, pairize, rle, row_pairs};
use crate::plugin::{GraphicPlugin, Plugin, PluginInfo, PluginType};
use std::rc::Rc;

verus! {

/// The fallback grid width and height used when the host supplies no detected
/// display size.
pub const DEFAULT_EDGE: u16 = 100;

/// A pixel grid of `width x height` colors stored row-major, together with the
/// drawing style the host last assigned.
pub struct MepTuiVideoPlugin {
    buffer: Vec<Color>,
    width: u16,
    height: u16,
    style: Rc<Style>,
}

impl MepTuiVideoPlugin {
    /// The grid holds exactly one color per coordinate.
    pub closed spec fn wf(self) -> bool {
        self.buffer@.len() == self.width as int * self.height as int
    }

    #[verifier::type_invariant]
    spec fn type_inv(self) -> bool {
        self.wf()
    }

    pub closed spec fn spec_width(self) -> int {
        self.width as int
    }

    pub closed spec fn spec_height(self) -> int {
        self.height as int
    }

    /// The color every drawing call currently writes.
    pub closed spec fn style_color(self) -> Color {
        self.style.color()
    }

    /// Whether (x, y) addresses a pixel of the grid.
    pub open spec fn in_bounds(self, x: int, y: int) -> bool {
        0 <= x < self.spec_width() && 0 <= y < self.spec_height()
    }

    /// The grid always has `height` rows of `width` pixels each.
    pub proof fn lemma_shape(self)
        ensures
            self@.len() == self.spec_height(),
            forall|y: int| 0 <= y < self@.len() ==> (#[trigger] self@[y]).len() == self.spec_width(),
    {
    }
}

impl View for MepTuiVideoPlugin {
    type V = Seq<Seq<Color>>;

    /// The grid as a sequence of rows, each row a sequence of pixel colors.
    closed spec fn view(&self) -> Seq<Seq<Color>> {
        Seq::new(
            self.height as nat,
            |y: int|
                Seq::new(
                    self.width as nat,
                    |x: int| self.buffer@[y * (self.width as int) + x],
                ),
        )
    }
}

/// Row-major position of (x, y) in a `w x h` grid, with the bounds that make
/// the flat index valid and small enough for the machine.
proof fn lemma_flat_index(x: int, y: int, w: int, h: int)
    requires
        0 <= x < w,
        0 <= y < h,
        w <= 0xffff,
        h <= 0xffff,
    ensures
        0 <= y * w + x < w * h,
        w * h <= 0xffff * 0xffff,
{
    assert(0 <= y * w + x < w * h) by (nonlinear_arith)
        requires
            0 <= x < w,
            0 <= y < h,
    ;
    assert(w * h <= 0xffff * 0xffff) by (nonlinear_arith)
        requires
            0 < w <= 0xffff,
            0 < h <= 0xffff,
    ;
}

/// Distinct in-range coordinates occupy distinct flat positions.
proof fn lemma_flat_index_unique(x1: int, y1: int, x2: int, y2: int, w: int)
    requires
        0 <= x1 < w,
        0 <= x2 < w,
        0 <= y1,
        0 <= y2,
        !(x1 == x2 && y1 == y2),
    ensures
        y1 * w + x1 != y2 * w + x2,
{
    assert(y1 * w + x1 != y2 * w + x2) by (nonlinear_arith)
        requires
            0 <= x1 < w,
            0 <= x2 < w,
            0 <= y1,
            0 <= y2,
            !(x1 == x2 && y1 == y2),
    ;
}

impl MepTuiVideoPlugin {
    /// How one flat-buffer update shows up in the grid view: exactly the one
    /// addressed pixel changes.
    proof fn lemma_set_pixel(pre: Self, post: Self, x: int, y: int, c: Color)
        requires
            pre.wf(),
            0 <= x < pre.spec_width(),
            0 <= y < pre.spec_height(),
            post.width == pre.width,
            post.height == pre.height,
            post.style == pre.style,
            post.buffer@ == pre.buffer@.update(y * (pre.width as int) + x, c),
        ensures
            post.wf(),
            forall|a: int, b: int|
                pre.in_bounds(a, b) ==> #[trigger] post@[b][a] == (if a == x && b == y {
                    c
                } else {
                    pre@[b][a]
                }),
    {
        let w = pre.width as int;
        let h = pre.height as int;
        lemma_flat_index(x, y, w, h);
        assert forall|a: int, b: int| pre.in_bounds(a, b) implies #[trigger] post@[b][a] == (
        if a == x && b == y {
            c
        } else {
            pre@[b][a]
        }) by {
            lemma_flat_index(a, b, w, h);
            if a == x && b == y {
            } else {
                lemma_flat_index_unique(a, b, x, y, w);
                assert(b * w + a != y * w + x);
            }
        }
    }

    /// A grid of the given size, every pixel transparent black, with a fresh
    /// default style.
    pub fn with_size(width: u16, height: u16) -> (p: Self)
        ensures
            p.spec_width() == width,
            p.spec_height() == height,
            forall|a: int, b: int| p.in_bounds(a, b) ==> #[trigger] p@[b][a]
                == Color::transparent_black(),
            p.style_color() == Color::transparent_black(),
    {
        proof {
            lemma_mul_bound(width as int, height as int);
        }
        let n: usize = (width as usize) * (height as usize);
        let mut buffer: Vec<Color> = Vec::new();
        let mut i: usize = 0;
        while i < n
            invariant
                i <= n,
                buffer@.len() == i,
                forall|j: int| 0 <= j < i ==> buffer@[j] == Color::transparent_black(),
            decreases n - i,
        {
            buffer.push(Color::black());
            i += 1;
        }
        let p = Self { buffer, width, height, style: Rc::new(Style::new()) };
        proof {
            assert forall|a: int, b: int| p.in_bounds(a, b) implies #[trigger] p@[b][a]
                == Color::transparent_black() by {
                lemma_flat_index(a, b, width as int, height as int);
            }
        }
        p
    }

    /// The color of the pixel at in-range coordinates.
    fn pixel_at(&self, x: usize, y: usize) -> (c: Color)
        requires
            self.in_bounds(x as int, y as int),
        ensures
            c == self@[y as int][x as int],
    {
        proof {
            use_type_invariant(self);
            lemma_flat_index(x as int, y as int, self.width as int, self.height as int);
        }
        self.buffer[y * (self.width as usize) + x]
    }

    /// Overwrites the pixel at in-range coordinates.
    fn set_pixel(&mut self, x: usize, y: usize, c: Color)
        requires
            old(self).in_bounds(x as int, y as int),
        ensures
            final(self).spec_width() == old(self).spec_width(),
            final(self).spec_height() == old(self).spec_height(),
            final(self).style_color() == old(self).style_color(),
            final(self).style == old(self).style,
            forall|a: int, b: int|
                old(self).in_bounds(a, b) ==> #[trigger] final(self)@[b][a] == (if a == x as int
                    && b == y as int {
                    c
                } else {
                    old(self)@[b][a]
                }),
    {
        proof {
            use_type_invariant(&*self);
            lemma_flat_index(x as int, y as int, self.width as int, self.height as int);
        }
        let ghost pre = *self;
        let idx: usize = y * (self.width as usize) + x;
        self.buffer[idx] = c;
        proof {
            Self::lemma_set_pixel(pre, *self, x as int, y as int, c);
        }
    }

    /// Bounds-checked read: the pixel's color inside the grid, a `BoundsError`
    /// naming the coordinate outside it.
    pub fn read_buffer(&self, x: u16, y: u16) -> (r: Result<Color, crate::graphics::BoundsError>)
        ensures
            match r {
                Ok(c) => self.in_bounds(x as int, y as int) && c == self@[y as int][x as int],
                Err(e) => !self.in_bounds(x as int, y as int) && e == (crate::graphics::BoundsError {
                    x,
                    y,
                }),
            },
    {
        if x < self.width && y < self.height {
            Ok(self.pixel_at(x as usize, y as usize))
        } else {
            Err(crate::graphics::BoundsError { x, y })
        }
    }

    /// Bounds-checked write: inside the grid exactly the addressed pixel takes
    /// the given color; outside it the grid is unchanged and the offending
    /// coordinate is reported.
    pub fn write_buffer(&mut self, x: u16, y: u16, data: Color) -> (r: Result<
        (),
        crate::graphics::BoundsError,
    >)
        ensures
            final(self).spec_width() == old(self).spec_width(),
            final(self).spec_height() == old(self).spec_height(),
            final(self).style_color() == old(self).style_color(),
            match r {
                Ok(()) => old(self).in_bounds(x as int, y as int) && forall|a: int, b: int|
                    old(self).in_bounds(a, b) ==> #[trigger] final(self)@[b][a] == (if a == x as int
                        && b == y as int {
                        data
                    } else {
                        old(self)@[b][a]
                    }),
                Err(e) => !old(self).in_bounds(x as int, y as int) && final(self)@ == old(self)@ && e
                    == (crate::graphics::BoundsError { x, y }),
            },
    {
        if x < self.width && y < self.height {
            self.set_pixel(x as usize, y as usize, data);
            Ok(())
        } else {
            Err(crate::graphics::BoundsError { x, y })
        }
    }

    /// Writes the given color at (cx, cy) when it lies inside the grid; does
    /// nothing otherwise.
    fn put_pixel(&mut self, cx: i32, cy: i32, c: Color)
        ensures
            final(self).spec_width() == old(self).spec_width(),
            final(self).spec_height() == old(self).spec_height(),
            final(self).style_color() == old(self).style_color(),
            final(self).style == old(self).style,
            forall|a: int, b: int|
                old(self).in_bounds(a, b) ==> #[trigger] final(self)@[b][a] == (if a == cx as int
                    && b == cy as int {
                    c
                } else {
                    old(self)@[b][a]
                }),
    {
        if cx >= 0 && cy >= 0 && cx < self.width as i32 && cy < self.height as i32 {
            self.set_pixel(cx as usize, cy as usize, c);
        }
    }

    /// One clipped pixel write extends the covered prefix of the line's
    /// visited coordinates by one.
    proof fn lemma_cover_step(
        pre: Self,
        mid: Self,
        post: Self,
        pts: Seq<(int, int)>,
        i: int,
        color: Color,
    )
        requires
            0 <= i < pts.len(),
            forall|a: int, b: int|
                pre.in_bounds(a, b) ==> #[trigger] mid@[b][a] == (if (exists|j: int|
                    0 <= j < i && #[trigger] pts[j] == (a, b)) {
                    color
                } else {
                    pre@[b][a]
                }),
            forall|a: int, b: int|
                pre.in_bounds(a, b) ==> #[trigger] post@[b][a] == (if a == pts[i].0 && b
                    == pts[i].1 {
                    color
                } else {
                    mid@[b][a]
                }),
        ensures
            forall|a: int, b: int|
                pre.in_bounds(a, b) ==> #[trigger] post@[b][a] == (if (exists|j: int|
                    0 <= j <= i && #[trigger] pts[j] == (a, b)) {
                    color
                } else {
                    pre@[b][a]
                }),
    {
        assert forall|a: int, b: int| pre.in_bounds(a, b) implies #[trigger] post@[b][a] == (if (
        exists|j: int| 0 <= j <= i && #[trigger] pts[j] == (a, b)) {
            color
        } else {
            pre@[b][a]
        }) by {
            if a == pts[i].0 && b == pts[i].1 {
                assert(pts[i] == (a, b));
                assert(exists|j: int| 0 <= j <= i && #[trigger] pts[j] == (a, b));
            } else {
                if exists|j: int| 0 <= j <= i && #[trigger] pts[j] == (a, b) {
                    let j = choose|j: int| 0 <= j <= i && #[trigger] pts[j] == (a, b);
                    assert(j < i);
                }
            }
        }
    }

    /// Compresses the grid row by row into (glyph run, color) pairs: one pair
    /// per maximal equal-color run, left to right, plus one row terminator per
    /// row, top to bottom. The grid itself is unchanged.
    pub fn compress_buffer(&mut self) -> (out: Vec<(String, Color)>)
        ensures
            *final(self) == *old(self),
            emitted(out@) == commit_pairs(old(self)@),
    {
        proof {
            use_type_invariant(&*self);
        }
        let ghost g = self@;
        let mut out: Vec<(String, Color)> = Vec::new();
        let h = self.height as usize;
        let w = self.width as usize;
        let mut y: usize = 0;
        proof {
            assert(g.take(0) =~= Seq::empty());
            assert(emitted(out@) =~= Seq::empty());
        }
        while y < h
            invariant
                *self == *old(self),
                y <= h,
                h == self.height as usize,
                w == self.width as usize,
                g == self@,
                emitted(out@) == commit_pairs(g.take(y as int)),
            decreases h - y,
        {
            let ghost row = g[y as int];
            proof {
                assert(row.len() == w as int);
            }
            if w > 0 {
                let mut last = self.pixel_at(0, y);
                let mut run_len: usize = 1;
                let mut x: usize = 1;
                proof {
                    assert(row.take(1).drop_last() =~= Seq::empty());
                    assert(rle(Seq::<Color>::empty()) =~= Seq::<(nat, Color)>::empty());
                    assert(rle(row.take(1)) =~= seq![(1nat, row[0])]);
                    assert(rle(row.take(1)).drop_last() =~= Seq::<(nat, Color)>::empty());
                    assert(rle(row.take(1)).drop_last().map_values(|r: (nat, Color)| pairize(r))
                        =~= Seq::<(Seq<char>, Color)>::empty());
                }
                while x < w
                    invariant
                        *self == *old(self),
                        g == self@,
                        1 <= x <= w,
                        y < h,
                        h == self.height as usize,
                        w == self.width as usize,
                        row == g[y as int],
                        row.len() == w as int,
                        1 <= run_len <= x,
                        rle(row.take(x as int)).len() >= 1,
                        rle(row.take(x as int)).last() == (run_len as nat, last),
                        emitted(out@) == commit_pairs(g.take(y as int)) + rle(
                            row.take(x as int),
                        ).drop_last().map_values(|r: (nat, Color)| pairize(r)),
                    decreases w - x,
                {
                    let cur = self.pixel_at(x, y);
                    let ghost prev = rle(row.take(x as int));
                    proof {
                        crate::rle::lemma_rle_push(row.take(x as int), cur);
                        assert(row.take(x as int).push(cur) =~= row.take(x as int + 1));
                    }
                    if cur == last {
                        proof {
                            let q = rle(row.take(x as int + 1));
                            assert(q == prev.update(prev.len() - 1, ((run_len + 1) as nat, cur)));
                            assert(q.drop_last() =~= prev.drop_last());
                            assert(q.drop_last().map_values(|r: (nat, Color)| pairize(r))
                                =~= prev.drop_last().map_values(|r: (nat, Color)| pairize(r)));
                        }
                        run_len += 1;
                    } else {
                        let glyph = glyph_run(run_len);
                        let ghost out0 = out@;
                        out.push((glyph, last));
                        proof {
                            let q = rle(row.take(x as int + 1));
                            assert(q == prev.push((1nat, cur)));
                            assert(q.drop_last() =~= prev);
                            assert(emitted(out@) =~= emitted(out0).push((glyphs(run_len as nat), last)));
                            assert(pairize(prev.last()) == (glyphs(run_len as nat), last));
                            assert(prev.map_values(|r: (nat, Color)| pairize(r)) =~= prev.drop_last()
                                .map_values(|r: (nat, Color)| pairize(r)).push(pairize(prev.last())));
                            assert(emitted(out@) =~= commit_pairs(g.take(y as int)) + q.drop_last()
                                .map_values(|r: (nat, Color)| pairize(r)));
                        }
                        last = cur;
                        run_len = 1;
                    }
                    x += 1;
                }
                let glyph = glyph_run(run_len);
                let ghost out0 = out@;
                out.push((glyph, last));
                proof {
                    assert(row.take(w as int) =~= row);
                    let q = rle(row);
                    assert(emitted(out@) =~= emitted(out0).push((glyphs(run_len as nat), last)));
                    assert(pairize(q.last()) == (glyphs(run_len as nat), last));
                    assert(q.map_values(|r: (nat, Color)| pairize(r)) =~= q.drop_last().map_values(
                        |r: (nat, Color)| pairize(r),
                    ).push(pairize(q.last())));
                    assert(emitted(out@) =~= commit_pairs(g.take(y as int)) + q.map_values(
                        |r: (nat, Color)| pairize(r),
                    ));
                }
            } else {
                proof {
                    assert(row =~= Seq::empty());
                    assert(rle(row) =~= Seq::<(nat, Color)>::empty());
                    assert(rle(row).map_values(|r: (nat, Color)| pairize(r)) =~= Seq::<
                        (Seq<char>, Color),
                    >::empty());
                }
            }
            let nl = newline_run();
            let ghost out1 = out@;
            out.push((nl, Color::black()));
            proof {
                assert(emitted(out@) =~= emitted(out1).push((newline_text(), Color::transparent_black())));
                assert(emitted(out@) =~= commit_pairs(g.take(y as int)) + row_pairs(row));
                assert(g.take(y as int + 1).drop_last() =~= g.take(y as int));
                assert(g.take(y as int + 1).last() == row);
                assert(emitted(out@) =~= commit_pairs(g.take(y as int + 1)));
            }
            y += 1;
        }
        proof {
            assert(g.take(h as int) =~= g);
        }
        out
    }
}

/// The glyph text for a run of `n` pixels: `n` filled-block characters.
fn glyph_run(n: usize) -> (s: String)
    ensures
        s@ == glyphs(n as nat),
{
    let mut s = String::new();
    proof {
        assert(s@ =~= glyphs(0));
    }
    let mut i: usize = 0;
    while i < n
        invariant
            i <= n,
            s@ == glyphs(i as nat),
        decreases n - i,
    {
        s.append("\u{2588}");
        proof {
            reveal_strlit("\u{2588}");
            assert(s@ =~= glyphs((i + 1) as nat));
        }
        i += 1;
    }
    s
}

/// The row terminator text.
fn newline_run() -> (s: String)
    ensures
        s@ == newline_text(),
{
    let s = String::from_str("\n");
    proof {
        reveal_strlit("\n");
        assert(s@ =~= newline_text());
    }
    s
}

/// The product of two display dimensions fits the machine's word.
proof fn lemma_mul_bound(w: int, h: int)
    requires
        0 <= w <= 0xffff,
        0 <= h <= 0xffff,
    ensures
        w * h <= 0xffff * 0xffff,
{
    assert(w * h <= 0xffff * 0xffff) by (nonlinear_arith)
        requires
            0 <= w <= 0xffff,
            0 <= h <= 0xffff,
    ;
}

/// Whether (a, b) lies on the outline of the rectangle with corner (x, y) and
/// the given extents. A rectangle with either extent zero has no outline.
pub open spec fn on_outline(x: int, y: int, w: int, h: int, a: int, b: int) -> bool {
    &&& w >= 1
    &&& h >= 1
    &&& x <= a <= x + w - 1
    &&& y <= b <= y + h - 1
    &&& (a == x || a == x + w - 1 || b == y || b == y + h - 1)
}

impl Plugin for MepTuiVideoPlugin {
    /// A backend of the fallback size, every pixel transparent black. A host
    /// that has detected the display size constructs with `with_size` instead.
    fn new() -> (p: Self)
        ensures
            p.spec_width() == DEFAULT_EDGE as int,
            p.spec_height() == DEFAULT_EDGE as int,
            forall|a: int, b: int| p.in_bounds(a, b) ==> #[trigger] p@[b][a]
                == Color::transparent_black(),
            p.style_color() == Color::transparent_black(),
    {
        Self::with_size(DEFAULT_EDGE, DEFAULT_EDGE)
    }

    fn init(&mut self)
        ensures
            *final(self) == *old(self),
    {
    }

    fn get_plugin_info(&self) -> (info: PluginInfo)
        ensures
            info.plugin_type == PluginType::GraphicsPlugin,
            info.plugin_name@ == "Tui Graphics"@,
            info.plugin_version@ == "0.1.0"@,
    {
        PluginInfo {
            plugin_name: "Tui Graphics",
            plugin_version: "0.1.0",
            plugin_type: PluginType::GraphicsPlugin,
        }
    }
}

impl GraphicPlugin for MepTuiVideoPlugin {
    /// Renders the whole grid as one command stream: a single reposition to
    /// the origin, then one color selection and one glyph run per maximal
    /// equal-color run (with a terminator per row), and one final flush. The
    /// grid is unchanged; the host streams the commands to the device.
    fn commit_buffer(&mut self) -> (cmds: Vec<OutputCommand>)
        ensures
            *final(self) == *old(self),
            cmds@.map_values(|c: OutputCommand| c@) == commit_commands(old(self)@),
    {
        let pairs = self.compress_buffer();
        let ghost ps = emitted(pairs@);
        let mut cmds: Vec<OutputCommand> = Vec::new();
        cmds.push(OutputCommand::Reposition { col: 0, row: 0 });
        proof {
            assert(ps.take(0) =~= Seq::empty());
            assert(cmds@.map_values(|c: OutputCommand| c@) =~= seq![
                OutputOp::Reposition { col: 0u16, row: 0u16 },
            ]);
        }
        let mut i: usize = 0;
        while i < pairs.len()
            invariant
                i <= pairs@.len(),
                ps == emitted(pairs@),
                ps.len() == pairs@.len(),
                cmds@.map_values(|c: OutputCommand| c@) == seq![
                    OutputOp::Reposition { col: 0u16, row: 0u16 },
                ] + pair_commands(ps.take(i as int)),
            decreases pairs@.len() - i,
        {
            let color = pairs[i].1;
            let text = pairs[i].0.clone();
            let ghost cmds0 = cmds@;
            cmds.push(OutputCommand::SetForeground { color });
            cmds.push(OutputCommand::Emit { text });
            proof {
                assert(ps[i as int] == (pairs@[i as int].0@, pairs@[i as int].1));
                assert(ps.take(i as int + 1).drop_last() =~= ps.take(i as int));
                assert(cmds@.map_values(|c: OutputCommand| c@) =~= cmds0.map_values(
                    |c: OutputCommand| c@,
                ) + seq![
                    OutputOp::SetForeground { color: ps[i as int].1 },
                    OutputOp::Emit { text: ps[i as int].0 },
                ]);
                assert(cmds@.map_values(|c: OutputCommand| c@) =~= seq![
                    OutputOp::Reposition { col: 0u16, row: 0u16 },
                ] + pair_commands(ps.take(i as int + 1)));
            }
            i += 1;
        }
        cmds.push(OutputCommand::Flush);
        proof {
            assert(ps.take(pairs@.len() as int) =~= ps);
            assert(cmds@.map_values(|c: OutputCommand| c@) =~= commit_commands(old(self)@));
        }
        cmds
    }

    /// Rasterizes a straight segment between the two points with incremental
    /// error stepping: exactly the coordinates of `line_points` take the
    /// current style color, clipped silently to the grid; every other pixel is
    /// unchanged. When the endpoints coincide a single pixel is written.
    fn draw_line(&mut self, x1: u16, y1: u16, x2: u16, y2: u16)
        ensures
            final(self).spec_width() == old(self).spec_width(),
            final(self).spec_height() == old(self).spec_height(),
            final(self).style_color() == old(self).style_color(),
            forall|a: int, b: int|
                old(self).in_bounds(a, b) ==> #[trigger] final(self)@[b][a] == (if line_points(
                    x1 as int,
                    y1 as int,
                    x2 as int,
                    y2 as int,
                ).contains((a, b)) {
                    old(self).style_color()
                } else {
                    old(self)@[b][a]
                }),
    {
        let ghost pre = *self;
        let ghost pts = line_points(x1 as int, y1 as int, x2 as int, y2 as int);
        let color = self.style.current_color();
        let dx: i32 = if x2 >= x1 {
            (x2 - x1) as i32
        } else {
            (x1 - x2) as i32
        };
        let dy: i32 = if y2 >= y1 {
            (y2 - y1) as i32
        } else {
            (y1 - y2) as i32
        };
        let sx: i32 = if x2 >= x1 {
            1
        } else {
            -1
        };
        let sy: i32 = if y2 >= y1 {
            1
        } else {
            -1
        };
        proof {
            assert(dx as int == abs(x2 as int - x1 as int));
            assert(dy as int == abs(y2 as int - y1 as int));
            assert(sx as int == sign_toward(x1 as int, x2 as int));
            assert(sy as int == sign_toward(y1 as int, y2 as int));
        }
        if dx >= dy {
            proof {
                assert(pts == bres_points(
                    x1 as int,
                    y1 as int,
                    sx as int,
                    sy as int,
                    dx as int,
                    dy as int,
                ));
            }
            let mut cx: i32 = x1 as i32;
            let mut cy: i32 = y1 as i32;
            let mut err: i32 = 0;
            let mut i: i32 = 0;
            let ghost mid0 = *self;
            self.put_pixel(cx, cy, color);
            proof {
                assert(pts[0] == (cx as int, cy as int));
                Self::lemma_cover_step(pre, mid0, *self, pts, 0, color);
            }
            while i < dx
                invariant
                    0 <= i <= dx,
                    0 <= dy <= dx,
                    dx as int == abs(x2 as int - x1 as int),
                    dy as int == abs(y2 as int - y1 as int),
                    sx as int == sign_toward(x1 as int, x2 as int),
                    sy as int == sign_toward(y1 as int, y2 as int),
                    pts == bres_points(
                        x1 as int,
                        y1 as int,
                        sx as int,
                        sy as int,
                        dx as int,
                        dy as int,
                    ),
                    pts.len() == dx as int + 1,
                    color == pre.style_color(),
                    (cx as int, cy as int, err as int) == bres_state(
                        x1 as int,
                        y1 as int,
                        sx as int,
                        sy as int,
                        dx as int,
                        dy as int,
                        i as nat,
                    ),
                    self.spec_width() == pre.spec_width(),
                    self.spec_height() == pre.spec_height(),
                    self.style_color() == pre.style_color(),
                    self.style == pre.style,
                    forall|a: int, b: int|
                        pre.in_bounds(a, b) ==> #[trigger] self@[b][a] == (if (exists|j: int|
                            0 <= j <= i as int && #[trigger] pts[j] == (a, b)) {
                            color
                        } else {
                            pre@[b][a]
                        }),
                decreases dx - i,
            {
                proof {
                    crate::line::lemma_bres_state_invariant(
                        x1 as int,
                        y1 as int,
                        sx as int,
                        sy as int,
                        dx as int,
                        dy as int,
                        i as nat,
                    );
                    let s = bres_state(
                        x1 as int,
                        y1 as int,
                        sx as int,
                        sy as int,
                        dx as int,
                        dy as int,
                        i as nat,
                    );
                    assert(s.0 == x1 as int + (i as int) * (sx as int));
                    if sx == 1 {
                        assert((i as int) * 1int == i as int);
                    } else {
                        assert((i as int) * (-1int) == -(i as int));
                    }
                    let a = (s.1 - y1 as int) * (sy as int);
                    if sy == 1 {
                        assert(a == s.1 - y1 as int) by (nonlinear_arith)
                            requires
                                a == (s.1 - y1 as int) * (sy as int),
                                sy == 1,
                        ;
                    } else {
                        assert(a == y1 as int - s.1) by (nonlinear_arith)
                            requires
                                a == (s.1 - y1 as int) * (sy as int),
                                sy as int == -1,
                        ;
                    }
                    assert(-65535 <= cy as int <= 131070);
                }
                let e = err + dy;
                if 2 * e > dx {
                    cy += sy;
                    err = e - dx;
                } else {
                    err = e;
                }
                cx += sx;
                i += 1;
                proof {
                    assert((cx as int, cy as int, err as int) == bres_state(
                        x1 as int,
                        y1 as int,
                        sx as int,
                        sy as int,
                        dx as int,
                        dy as int,
                        i as nat,
                    ));
                }
                let ghost mid = *self;
                self.put_pixel(cx, cy, color);
                proof {
                    assert(pts[i as int] == (cx as int, cy as int));
                    Self::lemma_cover_step(pre, mid, *self, pts, i as int, color);
                }
            }
            proof {
                assert forall|a: int, b: int| pre.in_bounds(a, b) implies #[trigger] final(self)@[b][a] == (if pts.contains((a, b)) {
                    pre.style_color()
                } else {
                    pre@[b][a]
                }) by {
                    if pts.contains((a, b)) {
                        let j = choose|j: int| 0 <= j < pts.len() && pts[j] == (a, b);
                        assert(0 <= j <= dx as int && pts[j] == (a, b));
                    }
                }
            }
        } else {
            proof {
                assert(pts == bres_points(
                    y1 as int,
                    x1 as int,
                    sy as int,
                    sx as int,
                    dy as int,
                    dx as int,
                ).map_values(|p: (int, int)| (p.1, p.0)));
            }
            let ghost raw = bres_points(
                y1 as int,
                x1 as int,
                sy as int,
                sx as int,
                dy as int,
                dx as int,
            );
            let mut cx: i32 = x1 as i32;
            let mut cy: i32 = y1 as i32;
            let mut err: i32 = 0;
            let mut i: i32 = 0;
            let ghost mid0 = *self;
            self.put_pixel(cx, cy, color);
            proof {
                assert(raw[0] == (cy as int, cx as int));
                assert(pts[0] == (cx as int, cy as int));
                Self::lemma_cover_step(pre, mid0, *self, pts, 0, color);
            }
            while i < dy
                invariant
                    0 <= i <= dy,
                    0 <= dx < dy,
                    dx as int == abs(x2 as int - x1 as int),
                    dy as int == abs(y2 as int - y1 as int),
                    sx as int == sign_toward(x1 as int, x2 as int),
                    sy as int == sign_toward(y1 as int, y2 as int),
                    raw == bres_points(
                        y1 as int,
                        x1 as int,
                        sy as int,
                        sx as int,
                        dy as int,
                        dx as int,
                    ),
                    pts == raw.map_values(|p: (int, int)| (p.1, p.0)),
                    pts.len() == dy as int + 1,
                    raw.len() == dy as int + 1,
                    color == pre.style_color(),
                    (cy as int, cx as int, err as int) == bres_state(
                        y1 as int,
                        x1 as int,
                        sy as int,
                        sx as int,
                        dy as int,
                        dx as int,
                        i as nat,
                    ),
                    self.spec_width() == pre.spec_width(),
                    self.spec_height() == pre.spec_height(),
                    self.style_color() == pre.style_color(),
                    self.style == pre.style,
                    forall|a: int, b: int|
                        pre.in_bounds(a, b) ==> #[trigger] self@[b][a] == (if (exists|j: int|
                            0 <= j <= i as int && #[trigger] pts[j] == (a, b)) {
                            color
                        } else {
                            pre@[b][a]
                        }),
                decreases dy - i,
            {
                proof {
                    crate::line::lemma_bres_state_invariant(
                        y1 as int,
                        x1 as int,
                        sy as int,
                        sx as int,
                        dy as int,
                        dx as int,
                        i as nat,
                    );
                    let s = bres_state(
                        y1 as int,
                        x1 as int,
                        sy as int,
                        sx as int,
                        dy as int,
                        dx as int,
                        i as nat,
                    );
                    assert(s.0 == y1 as int + (i as int) * (sy as int));
                    if sy == 1 {
                        assert((i as int) * 1int == i as int);
                    } else {
                        assert((i as int) * (-1int) == -(i as int));
                    }
                    let a = (s.1 - x1 as int) * (sx as int);
                    if sx == 1 {
                        assert(a == s.1 - x1 as int) by (nonlinear_arith)
                            requires
                                a == (s.1 - x1 as int) * (sx as int),
                                sx == 1,
                        ;
                    } else {
                        assert(a == x1 as int - s.1) by (nonlinear_arith)
                            requires
                                a == (s.1 - x1 as int) * (sx as int),
                                sx as int == -1,
                        ;
                    }
                    assert(-65535 <= cx as int <= 131070);
                }
                let e = err + dx;
                if 2 * e > dy {
                    cx += sx;
                    err = e - dy;
                } else {
                    err = e;
                }
                cy += sy;
                i += 1;
                proof {
                    assert((cy as int, cx as int, err as int) == bres_state(
                        y1 as int,
                        x1 as int,
                        sy as int,
                        sx as int,
                        dy as int,
                        dx as int,
                        i as nat,
                    ));
                }
                let ghost mid = *self;
                self.put_pixel(cx, cy, color);
                proof {
                    assert(raw[i as int] == (cy as int, cx as int));
                    assert(pts[i as int] == (cx as int, cy as int));
                    Self::lemma_cover_step(pre, mid, *self, pts, i as int, color);
                }
            }
            proof {
                assert forall|a: int, b: int| pre.in_bounds(a, b) implies #[trigger] final(self)@[b][a] == (if pts.contains((a, b)) {
                    pre.style_color()
                } else {
                    pre@[b][a]
                }) by {
                    if pts.contains((a, b)) {
                        let j = choose|j: int| 0 <= j < pts.len() && pts[j] == (a, b);
                        assert(0 <= j <= dy as int && pts[j] == (a, b));
                    }
                }
            }
        }
    }

    /// Draws the four-sided outline of the rectangle with top-left corner
    /// (x, y) and the given extents by four line segments, clipped to the
    /// grid: outline pixels take the style color, all others are unchanged.
    fn draw_rect(&mut self, x: u16, y: u16, width: u16, height: u16)
        ensures
            final(self).spec_width() == old(self).spec_width(),
            final(self).spec_height() == old(self).spec_height(),
            final(self).style_color() == old(self).style_color(),
            forall|a: int, b: int|
                old(self).in_bounds(a, b) ==> #[trigger] final(self)@[b][a] == (if on_outline(
                    x as int,
                    y as int,
                    width as int,
                    height as int,
                    a,
                    b,
                ) {
                    old(self).style_color()
                } else {
                    old(self)@[b][a]
                }),
    {
        if width == 0 || height == 0 {
            return ;
        }
        let xr_full: u32 = x as u32 + width as u32 - 1;
        let yr_full: u32 = y as u32 + height as u32 - 1;
        let x2: u16 = if xr_full > 0xffff {
            0xffff
        } else {
            xr_full as u16
        };
        let y2: u16 = if yr_full > 0xffff {
            0xffff
        } else {
            yr_full as u16
        };
        let ghost s0 = *self;
        self.draw_line(x, y, x2, y);
        let ghost s1 = *self;
        self.draw_line(x, y2, x2, y2);
        let ghost s2 = *self;
        self.draw_line(x, y, x, y2);
        let ghost s3 = *self;
        self.draw_line(x2, y, x2, y2);
        proof {
            let top = line_points(x as int, y as int, x2 as int, y as int);
            let bottom = line_points(x as int, y2 as int, x2 as int, y2 as int);
            let left = line_points(x as int, y as int, x as int, y2 as int);
            let right = line_points(x2 as int, y as int, x2 as int, y2 as int);
            crate::line::lemma_horizontal_line(x as int, y as int, x2 as int);
            crate::line::lemma_horizontal_line(x as int, y2 as int, x2 as int);
            crate::line::lemma_vertical_line(x as int, y as int, y2 as int);
            crate::line::lemma_vertical_line(x2 as int, y as int, y2 as int);
            assert forall|a: int, b: int| s0.in_bounds(a, b) implies #[trigger] final(self)@[b][a]
                == (if on_outline(x as int, y as int, width as int, height as int, a, b) {
                s0.style_color()
            } else {
                s0@[b][a]
            }) by {
                assert(s1@[b][a] == (if top.contains((a, b)) {
                    s0.style_color()
                } else {
                    s0@[b][a]
                }));
                assert(s2@[b][a] == (if bottom.contains((a, b)) {
                    s0.style_color()
                } else {
                    s1@[b][a]
                }));
                assert(s3@[b][a] == (if left.contains((a, b)) {
                    s0.style_color()
                } else {
                    s2@[b][a]
                }));
                assert(final(self)@[b][a] == (if right.contains((a, b)) {
                    s0.style_color()
                } else {
                    s3@[b][a]
                }));
                assert(a <= 0xfffe && b <= 0xfffe);
                assert(top.contains((a, b)) <==> (b == y as int && x as int <= a <= x2 as int));
                assert(bottom.contains((a, b)) <==> (b == y2 as int && x as int <= a <= x2 as int));
                assert(left.contains((a, b)) <==> (a == x as int && y as int <= b <= y2 as int));
                assert(right.contains((a, b)) <==> (a == x2 as int && y as int <= b <= y2 as int));
            }
        }
    }

    /// Writes the current style's color to every coordinate of
    /// `[x, x+width) x [y, y+height)`, clipped silently to the grid: pixels in
    /// the rectangle take the style color, every other pixel is unchanged.
    fn fill_rect(&mut self, x: u16, y: u16, width: u16, height: u16)
        ensures
            final(self).spec_width() == old(self).spec_width(),
            final(self).spec_height() == old(self).spec_height(),
            final(self).style_color() == old(self).style_color(),
            forall|a: int, b: int|
                old(self).in_bounds(a, b) ==> #[trigger] final(self)@[b][a] == (if x as int <= a < x
                    as int + width as int && y as int <= b < y as int + height as int {
                    old(self).style_color()
                } else {
                    old(self)@[b][a]
                }),
    {
        let ghost pre = *self;
        let w = self.width as usize;
        let h = self.height as usize;
        let x_end_full: usize = x as usize + width as usize;
        let y_end_full: usize = y as usize + height as usize;
        let x_end: usize = if x_end_full > w {
            w
        } else {
            x_end_full
        };
        let y_end: usize = if y_end_full > h {
            h
        } else {
            y_end_full
        };
        let color = self.style.current_color();
        let mut b: usize = y as usize;
        while b < y_end
            invariant
                y as int <= b <= y_end || b == y as usize,
                y_end <= h,
                x_end <= w,
                x_end <= x_end_full,
                x_end_full == x as int + width as int,
                y_end_full == y as int + height as int,
                y_end <= y_end_full,
                w == self.width as usize,
                h == self.height as usize,
                y_end == if y_end_full > h { h } else { y_end_full },
                x_end == if x_end_full > w { w } else { x_end_full },
                color == pre.style_color(),
                self.spec_width() == pre.spec_width(),
                self.spec_height() == pre.spec_height(),
                self.style_color() == pre.style_color(),
                self.style == pre.style,
                forall|aa: int, bb: int|
                    pre.in_bounds(aa, bb) ==> #[trigger] self@[bb][aa] == (if x as int <= aa < x_end
                        as int && y as int <= bb < b as int {
                        pre.style_color()
                    } else {
                        pre@[bb][aa]
                    }),
            decreases y_end - b,
        {
            let mut a: usize = x as usize;
            while a < x_end
                invariant
                    x as int <= a <= x_end || a == x as usize,
                    b < y_end,
                    y_end <= h,
                    x_end <= w,
                    w == self.width as usize,
                    h == self.height as usize,
                    color == pre.style_color(),
                    self.spec_width() == pre.spec_width(),
                    self.spec_height() == pre.spec_height(),
                    self.style_color() == pre.style_color(),
                    self.style == pre.style,
                    forall|aa: int, bb: int|
                        pre.in_bounds(aa, bb) ==> #[trigger] self@[bb][aa] == (if (x as int <= aa
                            < x_end as int && y as int <= bb < b as int) || (bb == b as int && x
                            as int <= aa < a as int) {
                            pre.style_color()
                        } else {
                            pre@[bb][aa]
                        }),
                decreases x_end - a,
            {
                self.set_pixel(a, b, color);
                a += 1;
            }
            b += 1;
        }
        proof {
            assert forall|a: int, b2: int| pre.in_bounds(a, b2) implies #[trigger] final(self)@[b2][a]
                == (if x as int <= a < x as int + width as int && y as int <= b2 < y as int + height
                as int {
                pre.style_color()
            } else {
                pre@[b2][a]
            }) by {}
        }
    }

    /// Replaces the drawing style: subsequent drawing calls use the new
    /// style's color; the grid itself is unchanged.
    fn set_style(&mut self, style: Rc<Style>)
        ensures
            final(self).spec_width() == old(self).spec_width(),
            final(self).spec_height() == old(self).spec_height(),
            final(self)@ == old(self)@,
            final(self).style_color() == style.color(),
    {
        proof {
            use_type_invariant(&*self);
        }
        self.style = style;
    }
}

/// The module entry point every backend exports under a fixed name: builds
/// this backend, self-initialized at the fallback size, for the host to drive.
pub fn mep_get_plugin() -> (p: MepTuiVideoPlugin)
    ensures
        p.spec_width() == DEFAULT_EDGE as int,
        p.spec_height() == DEFAULT_EDGE as int,
        forall|a: int, b: int| p.in_bounds(a, b) ==> #[trigger] p@[b][a]
            == Color::transparent_black(),
        p.style_color() == Color::transparent_black(),
{
    <MepTuiVideoPlugin as Plugin>::new()
}

/// Law: a pixel written and then read at the same coordinate reads back as
/// exactly the written color. `post` is any grid state that a successful
/// `write_buffer` of `c` at (x, y) on `pre` promises; `read_buffer` on it
/// returns `post@[y][x]`, which is `c`.
pub proof fn lemma_write_read_round_trip(
    pre: MepTuiVideoPlugin,
    post: MepTuiVideoPlugin,
    x: u16,
    y: u16,
    c: Color,
)
    requires
        pre.in_bounds(x as int, y as int),
        forall|a: int, b: int|
            pre.in_bounds(a, b) ==> #[trigger] post@[b][a] == (if a == x as int && b == y as int {
                c
            } else {
                pre@[b][a]
            }),
    ensures
        post@[y as int][x as int] == c,
{
}

} // verus!
