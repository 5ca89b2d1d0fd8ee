//! The quill that follows the pen.

use vstd::prelude::*;

use crate::canvas;
use crate::polygon;
use crate::raster;
use crate::shapes;

verus! {

pub const OUTLINE: u32 = 0xFF12_100E;

pub const NIB: u32 = 0xFF2B_2925;

pub const NIB_LIGHT: u32 = 0xFFDD_D6C8;

pub const SHAFT: u32 = 0xFF6A_4A2F;

pub const SHAFT_LIGHT: u32 = 0xFFA6_7B51;

pub const FEATHER: u32 = 0xFFE7_E4DB;

pub const FEATHER_SHADE: u32 = 0xFFD1_CDC2;

pub const FEATHER_EDGE: u32 = 0xFF8C_887F;

pub const EYE_GOLD: u32 = 0xFFC4_A24B;

pub const EYE_TEAL: u32 = 0xFF2A_8078;

pub const EYE_BLUE: u32 = 0xFF1B_314C;

/// Half a period, at least one frame.
pub open spec fn half_period(period: int) -> int {
    raster::max(period / 2, 1)
}

/// How far a wave has come from its start, or has to go to its end.
pub open spec fn wave_phase(frame: int, period: int) -> int {
    let p = frame % period;
    if p < half_period(period) {
        p
    } else {
        period - p
    }
}

/// A wave that goes from `-amp` up to `amp` and back in a period.
pub open spec fn wave(frame: int, period: int, amp: int) -> int {
    raster::trunc_div(wave_phase(frame, period) * amp * 2, half_period(period)) - amp
}

/// No number on the way to the wave leaves the range of `i32`.
pub open spec fn wave_fits(frame: int, period: int, amp: int) -> bool {
    &&& 0 < period <= i32::MAX
    &&& raster::fits_i32(wave_phase(frame, period) * amp)
    &&& raster::fits_i32(wave_phase(frame, period) * amp * 2)
    &&& raster::fits_i32(wave(frame, period, amp))
}

/// A wave that goes from `-amp` up to `amp` and back in a period.
pub fn triangle_wave(frame: u64, period: u64, amp: i32) -> (r: i32)
    requires
        wave_fits(frame as int, period as int, amp as int),
    ensures
        r == wave(frame as int, period as int, amp as int),
{
    let half: u64 = if period / 2 > 1 { period / 2 } else { 1 };
    let p: i32 = (frame % period) as i32;
    let half_i: i32 = half as i32;
    let v: i32 = if p < half_i { p } else { period as i32 - p };
    v * amp * 2 / half_i - amp
}

/// Where a wave is when the period has as many frames up as down: between its
/// ends.
pub proof fn law_wave_stays_between(frame: int, period: int, amp: int)
    requires
        0 <= frame,
        2 <= period,
        period % 2 == 0,
        0 <= amp,
    ensures
        -amp <= wave(frame, period, amp) <= amp,
{
    let half = half_period(period);
    let v = wave_phase(frame, period);
    vstd::arithmetic::div_mod::lemma_mod_bound(frame, period);
    assert(0 <= v <= half);
    assert(0 <= v * amp * 2 <= half * amp * 2) by (nonlinear_arith)
        requires
            0 <= v <= half,
            0 <= amp,
    ;
    assert(half * amp * 2 == half * (2 * amp)) by (nonlinear_arith);
    let n = v * amp * 2;
    assert(0 <= n / half <= 2 * amp) by (nonlinear_arith)
        requires
            0 <= n <= half * (2 * amp),
            1 <= half,
            0 <= amp,
    ;
}

/// A wave begins and ends each period at its lowest.
pub proof fn law_wave_repeats(frame: int, period: int, amp: int)
    requires
        0 <= frame,
        0 < period,
    ensures
        wave(frame + period, period, amp) == wave(frame, period, amp),
        wave(0, period, amp) == -amp,
{
    vstd::arithmetic::div_mod::lemma_mod_add_multiples_vanish(frame, period);
    assert((frame + period) % period == frame % period);
    assert(0int % period == 0);
    assert(0 * amp * 2 == 0);
    assert(0int / half_period(period) == 0) by (nonlinear_arith)
        requires
            half_period(period) >= 1,
    ;
}

/// How the quill is held: where its nib is, how far it sways, and how far its
/// tip flutters.
pub struct Pose {
    pub x: int,
    pub y: int,
    pub sway: int,
    pub flutter: int,
}

/// How the quill is held in a frame: it bobs unless it is pressed down.
pub open spec fn pose(x: int, y: int, frame: int, down: bool) -> Pose {
    Pose {
        x,
        y: if down {
            y + 1
        } else {
            y + wave(frame + 11, 96, 1)
        },
        sway: wave(frame, 84, 11),
        flutter: wave(frame + 21, 58, 5),
    }
}

/// A point at an offset from the nib.
pub open spec fn off(q: Pose, dx: int, dy: int) -> (i32, i32) {
    ((q.x + dx) as i32, (q.y + dy) as i32)
}

/// A part of the sway.
pub open spec fn part(q: Pose, n: int) -> int {
    raster::trunc_div(q.sway, n)
}

/// The shaft, from the nib to the tip.
pub open spec fn shaft_points(q: Pose) -> Seq<(i32, i32)> {
    seq![
        off(q, 9, -7),
        off(q, 17, -19),
        off(q, 31, -41),
        off(q, 47 + part(q, 8), -70),
        off(q, 68 + part(q, 6), -135),
        off(q, 94 + part(q, 4), -222),
        off(q, 123 + part(q, 2), -314),
        off(q, 144 + q.sway + q.flutter, -402),
    ]
}

/// The vane on the left of the shaft.
pub open spec fn left_vane(q: Pose) -> Seq<(i32, i32)> {
    let s = shaft_points(q);
    seq![
        s[2],
        off(q, 23 + part(q, 8), -66),
        off(q, 21 + part(q, 6), -132),
        off(q, 35 + part(q, 5), -228),
        off(q, 72 + part(q, 3), -344),
        s[7],
        s[6],
        s[5],
        s[4],
        s[3],
    ]
}

/// The vane on the right of the shaft.
pub open spec fn right_vane(q: Pose) -> Seq<(i32, i32)> {
    let s = shaft_points(q);
    seq![
        s[2],
        off(q, 63 + part(q, 8), -63),
        off(q, 88 + part(q, 6), -136),
        off(q, 116 + part(q, 5), -235),
        off(q, 139 + part(q, 3) + q.flutter, -346),
        s[7],
        s[6],
        s[5],
        s[4],
        s[3],
    ]
}

/// The vanes, dark, and light inside.
pub open spec fn vane_layers(
    q: Pose,
    cross: polygon::Cross,
    inward: polygon::Inward,
) -> Seq<canvas::Layer> {
    seq![
        canvas::layer(polygon::polygon(left_vane(q), cross), OUTLINE),
        canvas::layer(polygon::polygon(right_vane(q), cross), OUTLINE),
        canvas::layer(
            polygon::polygon(polygon::moved_in(left_vane(q), 5, inward), cross),
            FEATHER,
        ),
        canvas::layer(
            polygon::polygon(polygon::moved_in(right_vane(q), 5, inward), cross),
            FEATHER,
        ),
    ]
}

/// The shade of the feather, and the notches in it.
pub open spec fn feather_layers(q: Pose) -> Seq<canvas::Layer> {
    let s = shaft_points(q);
    seq![
        canvas::layer(
            shapes::triangle(s[4], off(q, 31 + part(q, 4), -236), s[7]),
            FEATHER_SHADE,
        ),
        canvas::layer(
            shapes::triangle(s[4], off(q, 125 + part(q, 4), -238), s[7]),
            FEATHER_SHADE,
        ),
        canvas::layer(raster::line(off(q, 25 + part(q, 5), -120), s[4], 1), FEATHER_EDGE),
        canvas::layer(raster::line(off(q, 39 + part(q, 4), -252), s[5], 1), FEATHER_EDGE),
        canvas::layer(raster::line(off(q, 83 + part(q, 5), -123), s[4], 1), FEATHER_EDGE),
        canvas::layer(raster::line(off(q, 116 + part(q, 4), -255), s[5], 1), FEATHER_EDGE),
    ]
}

/// The shaft, dark, brown, and with a light.
pub open spec fn shaft_layers(q: Pose) -> Seq<canvas::Layer> {
    let s = shaft_points(q);
    seq![
        canvas::layer(canvas::polyline(s, 5), OUTLINE),
        canvas::layer(canvas::polyline(s, 3), SHAFT),
        canvas::layer(canvas::polyline(s.subrange(1, 7), 1), SHAFT_LIGHT),
    ]
}

/// The eye near the tip of the feather.
pub open spec fn eye_layers(q: Pose) -> Seq<canvas::Layer> {
    let x = q.x + 136 + q.sway + q.flutter;
    let y = q.y - 365;
    seq![
        canvas::layer(shapes::ellipse(x, y, 22, 33), OUTLINE),
        canvas::layer(shapes::ellipse(x, y, 18, 28), EYE_GOLD),
        canvas::layer(shapes::ellipse(x - 1, y + 2, 11, 18), EYE_TEAL),
        canvas::layer(shapes::ellipse(x - 1, y + 3, 5, 9), EYE_BLUE),
    ]
}

/// The nib.
pub open spec fn nib_layers(q: Pose) -> Seq<canvas::Layer> {
    seq![
        canvas::layer(shapes::triangle(off(q, 0, 0), off(q, 7, -17), off(q, 20, -9)), OUTLINE),
        canvas::layer(shapes::triangle(off(q, 2, -1), off(q, 8, -14), off(q, 17, -8)), NIB),
        canvas::layer(raster::line(off(q, 4, -3), off(q, 12, -11), 1), NIB_LIGHT),
        canvas::layer(raster::disk(q.x, q.y, 1), OUTLINE),
    ]
}

/// The quill without its vanes.
pub open spec fn upper_layers(q: Pose) -> Seq<canvas::Layer> {
    feather_layers(q) + shaft_layers(q) + eye_layers(q) + nib_layers(q)
}

/// The quill.
pub open spec fn quill_layers(
    q: Pose,
    cross: polygon::Cross,
    inward: polygon::Inward,
) -> Seq<canvas::Layer> {
    vane_layers(q, cross, inward) + upper_layers(q)
}

/// A pose that the quill can take: it sways and flutters no more than it does,
/// and is so near that the sums of its coordinates are `i32`s.
pub open spec fn holdable(q: Pose) -> bool {
    &&& -11 <= q.sway <= 11
    &&& -5 <= q.flutter <= 5
    &&& near(q.x)
    &&& near(q.y)
}

/// A coordinate of which ten, with the quill around them, make a sum that is an
/// `i32`.
pub open spec fn near(a: int) -> bool {
    -214_747_900 <= a <= 214_747_900
}

/// A place for the nib at which the quill can be drawn, though it bobs by a
/// pixel.
pub open spec fn in_reach(x: int, y: int) -> bool {
    near(x) && near(y - 1) && near(y + 1)
}

proof fn lemma_part(sway: int, n: int)
    requires
        -11 <= sway <= 11,
        2 <= n,
    ensures
        -5 <= raster::trunc_div(sway, n) <= 5,
{
    let a = raster::abs(sway);
    assert(0 <= a / n <= 5) by (nonlinear_arith)
        requires
            0 <= a <= 11,
            2 <= n,
    ;
}

/// Parts of the sway are small.
pub proof fn lemma_parts(q: Pose)
    requires
        holdable(q),
    ensures
        -5 <= part(q, 2) <= 5,
        -5 <= part(q, 3) <= 5,
        -5 <= part(q, 4) <= 5,
        -5 <= part(q, 5) <= 5,
        -5 <= part(q, 6) <= 5,
        -5 <= part(q, 8) <= 5,
{
    lemma_part(q.sway, 2);
    lemma_part(q.sway, 3);
    lemma_part(q.sway, 4);
    lemma_part(q.sway, 5);
    lemma_part(q.sway, 6);
    lemma_part(q.sway, 8);
}

/// How the quill is held, as the drawing takes it.
struct Held {
    x: i32,
    y: i32,
    sway: i32,
    flutter: i32,
}

impl Held {
    spec fn pose(&self) -> Pose {
        Pose {
            x: self.x as int,
            y: self.y as int,
            sway: self.sway as int,
            flutter: self.flutter as int,
        }
    }

    /// A point at an offset from the nib.
    fn off(&self, dx: i32, dy: i32) -> (p: (i32, i32))
        requires
            holdable(self.pose()),
            -1000 <= dx <= 1000,
            -1000 <= dy <= 1000,
        ensures
            p == off(self.pose(), dx as int, dy as int),
            p.0 == self.x + dx,
            p.1 == self.y + dy,
    {
        (self.x + dx, self.y + dy)
    }

    /// The shaft, from the nib to the tip.
    fn shaft(&self) -> (points: Vec<(i32, i32)>)
        requires
            holdable(self.pose()),
        ensures
            points@ == shaft_points(self.pose()),
    {
        proof {
            lemma_parts(self.pose());
        }
        let points = vec![
            self.off(9, -7),
            self.off(17, -19),
            self.off(31, -41),
            self.off(47 + self.sway / 8, -70),
            self.off(68 + self.sway / 6, -135),
            self.off(94 + self.sway / 4, -222),
            self.off(123 + self.sway / 2, -314),
            self.off(144 + self.sway + self.flutter, -402),
        ];
        assert(points@ =~= shaft_points(self.pose()));
        points
    }

    /// The vane on the left of the shaft.
    fn left_vane(&self, shaft: &Vec<(i32, i32)>) -> (points: Vec<(i32, i32)>)
        requires
            holdable(self.pose()),
            shaft@ == shaft_points(self.pose()),
        ensures
            points@ == left_vane(self.pose()),
    {
        proof {
            lemma_parts(self.pose());
        }
        let points = vec![
            shaft[2],
            self.off(23 + self.sway / 8, -66),
            self.off(21 + self.sway / 6, -132),
            self.off(35 + self.sway / 5, -228),
            self.off(72 + self.sway / 3, -344),
            shaft[7],
            shaft[6],
            shaft[5],
            shaft[4],
            shaft[3],
        ];
        assert(points@ =~= left_vane(self.pose()));
        points
    }

    /// The vane on the right of the shaft.
    fn right_vane(&self, shaft: &Vec<(i32, i32)>) -> (points: Vec<(i32, i32)>)
        requires
            holdable(self.pose()),
            shaft@ == shaft_points(self.pose()),
        ensures
            points@ == right_vane(self.pose()),
    {
        proof {
            lemma_parts(self.pose());
        }
        let points = vec![
            shaft[2],
            self.off(63 + self.sway / 8, -63),
            self.off(88 + self.sway / 6, -136),
            self.off(116 + self.sway / 5, -235),
            self.off(139 + self.sway / 3 + self.flutter, -346),
            shaft[7],
            shaft[6],
            shaft[5],
            shaft[4],
            shaft[3],
        ];
        assert(points@ =~= right_vane(self.pose()));
        points
    }
}

/// The points around the quill.
spec fn around(q: Pose, p: (i32, i32)) -> bool {
    q.x - 410 <= p.0 <= q.x + 410 && q.y - 410 <= p.1 <= q.y + 410
}

proof fn lemma_points_around(q: Pose)
    requires
        holdable(q),
    ensures
        forall|i: int| 0 <= i < 8 ==> around(q, #[trigger] shaft_points(q)[i]),
        forall|i: int| 0 <= i < 10 ==> around(q, #[trigger] left_vane(q)[i]),
        forall|i: int| 0 <= i < 10 ==> around(q, #[trigger] right_vane(q)[i]),
{
    lemma_parts(q);
    let s = shaft_points(q);
    assert(around(q, s[0]) && around(q, s[1]) && around(q, s[2]) && around(q, s[3]) && around(
        q,
        s[4],
    ) && around(q, s[5]) && around(q, s[6]) && around(q, s[7]));
    let l = left_vane(q);
    assert(around(q, l[0]) && around(q, l[1]) && around(q, l[2]) && around(q, l[3]) && around(
        q,
        l[4],
    ) && around(q, l[5]) && around(q, l[6]) && around(q, l[7]) && around(q, l[8]) && around(
        q,
        l[9],
    ));
    let r = right_vane(q);
    assert(around(q, r[0]) && around(q, r[1]) && around(q, r[2]) && around(q, r[3]) && around(
        q,
        r[4],
    ) && around(q, r[5]) && around(q, r[6]) && around(q, r[7]) && around(q, r[8]) && around(
        q,
        r[9],
    ));
}

proof fn lemma_sums_fit(q: Pose, points: Seq<(i32, i32)>)
    requires
        holdable(q),
        points.len() == 10,
        forall|i: int| 0 <= i < 10 ==> around(q, #[trigger] points[i]),
    ensures
        polygon::sums_fit(points),
{
    assert forall|n: int| 0 <= n <= points.len() implies raster::fits_i32(
        #[trigger] polygon::sum_x(points, n),
    ) && raster::fits_i32(polygon::sum_y(points, n)) by {
        lemma_sums_bound(q, points, n);
    }
}

proof fn lemma_sums_bound(q: Pose, points: Seq<(i32, i32)>, n: int)
    requires
        holdable(q),
        points.len() == 10,
        forall|i: int| 0 <= i < 10 ==> around(q, #[trigger] points[i]),
        0 <= n <= 10,
    ensures
        n * -214_748_310 <= polygon::sum_x(points, n) <= n * 214_748_310,
        n * -214_748_310 <= polygon::sum_y(points, n) <= n * 214_748_310,
    decreases n,
{
    if n > 0 {
        lemma_sums_bound(q, points, n - 1);
        assert(around(q, points[n - 1]));
    }
}

/// Draws the vanes.
fn draw_vanes<
    C: Fn(i32, i32, (i32, i32), (i32, i32)) -> bool,
    M: Fn(i32, i32, usize, (i32, i32), i32) -> (i32, i32),
>(buf: &mut [u32], held: &Held, shaft: &Vec<(i32, i32)>, crosses: &C, moves: &M)
    requires
        canvas::screen(old(buf)@),
        holdable(held.pose()),
        shaft@ == shaft_points(held.pose()),
        polygon::crosses_all(*crosses),
        polygon::moves_all(*moves),
    ensures
        final(buf)@.len() == old(buf)@.len(),
        forall|cross: polygon::Cross, inward: polygon::Inward|
            #![trigger polygon::crosses_as(*crosses, cross), polygon::moves_as(*moves, inward)]
            polygon::crosses_as(*crosses, cross) && polygon::moves_as(*moves, inward) ==> final(buf)@ == canvas::layered(old(buf)@, vane_layers(held.pose(), cross, inward)),
{
    let ghost before = buf@;
    let ghost q = held.pose();
    let left = held.left_vane(shaft);
    let right = held.right_vane(shaft);
    proof {
        lemma_points_around(q);
        lemma_sums_fit(q, left@);
        lemma_sums_fit(q, right@);
    }
    polygon::fill_polygon(buf, left.as_slice(), OUTLINE, crosses);
    polygon::fill_polygon(buf, right.as_slice(), OUTLINE, crosses);
    polygon::fill_polygon_inset(buf, left.as_slice(), 5, FEATHER, crosses, moves);
    polygon::fill_polygon_inset(buf, right.as_slice(), 5, FEATHER, crosses, moves);
    proof {
        assert forall|cross: polygon::Cross, inward: polygon::Inward|
            #![trigger polygon::crosses_as(*crosses, cross), polygon::moves_as(*moves, inward)]
            polygon::crosses_as(*crosses, cross) && polygon::moves_as(
                *moves,
                inward,
            ) implies buf@ == canvas::layered(before, vane_layers(q, cross, inward)) by {
            let all = vane_layers(q, cross, inward);
            assert(all.take(0) =~= seq![]);
            canvas::lemma_next_layer(before, all, 0);
            canvas::lemma_next_layer(before, all, 1);
            canvas::lemma_next_layer(before, all, 2);
            canvas::lemma_next_layer(before, all, 3);
            assert(all.take(4) =~= all);
        }
    }
}

/// Draws the shade of the feather, and the notches in it.
fn draw_feather(buf: &mut [u32], held: &Held, shaft: &Vec<(i32, i32)>)
    requires
        canvas::screen(old(buf)@),
        holdable(held.pose()),
        shaft@ == shaft_points(held.pose()),
    ensures
        final(buf)@ == canvas::layered(old(buf)@, feather_layers(held.pose())),
{
    let ghost before = buf@;
    let ghost q = held.pose();
    let ghost all = feather_layers(q);
    proof {
        lemma_parts(q);
        lemma_points_around(q);
        assert(around(q, shaft@[4]) && around(q, shaft@[5]) && around(q, shaft@[7]));
        assert(all.take(0) =~= seq![]);
        canvas::lemma_next_layer(before, all, 0);
        canvas::lemma_next_layer(before, all, 1);
        canvas::lemma_next_layer(before, all, 2);
        canvas::lemma_next_layer(before, all, 3);
        canvas::lemma_next_layer(before, all, 4);
        canvas::lemma_next_layer(before, all, 5);
        assert(all.take(6) =~= all);
    }
    let a = held.off(31 + held.sway / 4, -236);
    let b = held.off(125 + held.sway / 4, -238);
    let n0 = held.off(25 + held.sway / 5, -120);
    let n1 = held.off(39 + held.sway / 4, -252);
    let n2 = held.off(83 + held.sway / 5, -123);
    let n3 = held.off(116 + held.sway / 4, -255);
    proof {
        shapes::lemma_close_triangle(shaft@[4], a, shaft@[7]);
        shapes::lemma_close_triangle(shaft@[4], b, shaft@[7]);
        shapes::lemma_close_line(n0, shaft@[4], 1);
        shapes::lemma_close_line(n1, shaft@[5], 1);
        shapes::lemma_close_line(n2, shaft@[4], 1);
        shapes::lemma_close_line(n3, shaft@[5], 1);
    }
    shapes::fill_triangle(buf, shaft[4], a, shaft[7], FEATHER_SHADE);
    shapes::fill_triangle(buf, shaft[4], b, shaft[7], FEATHER_SHADE);
    canvas::draw_line(buf, n0, shaft[4], 1, FEATHER_EDGE);
    canvas::draw_line(buf, n1, shaft[5], 1, FEATHER_EDGE);
    canvas::draw_line(buf, n2, shaft[4], 1, FEATHER_EDGE);
    canvas::draw_line(buf, n3, shaft[5], 1, FEATHER_EDGE);
}

/// Draws the shaft.
fn draw_shaft(buf: &mut [u32], held: &Held, shaft: &Vec<(i32, i32)>)
    requires
        canvas::screen(old(buf)@),
        holdable(held.pose()),
        shaft@ == shaft_points(held.pose()),
    ensures
        final(buf)@ == canvas::layered(old(buf)@, shaft_layers(held.pose())),
{
    let ghost before = buf@;
    let ghost q = held.pose();
    let ghost all = shaft_layers(q);
    let light = vstd::slice::slice_subrange(shaft.as_slice(), 1, 7);
    proof {
        lemma_points_around(q);
        assert forall|k: int| 0 <= k < 7 implies raster::line_fits(
            #[trigger] shaft@[k],
            shaft@[k + 1],
            5,
        ) && raster::line_fits(shaft@[k], shaft@[k + 1], 3) && raster::line_fits(
            shaft@[k],
            shaft@[k + 1],
            1,
        ) by {
            assert(around(q, shaft_points(q)[k]) && around(q, shaft_points(q)[k + 1]));
            shapes::lemma_close_line(shaft@[k], shaft@[k + 1], 5);
            shapes::lemma_close_line(shaft@[k], shaft@[k + 1], 3);
            shapes::lemma_close_line(shaft@[k], shaft@[k + 1], 1);
        }
        assert forall|k: int| 0 <= k < light@.len() - 1 implies raster::line_fits(
            #[trigger] light@[k],
            light@[k + 1],
            1,
        ) by {
            assert(light@[k] == shaft@[k + 1] && light@[k + 1] == shaft@[k + 2]);
            assert(raster::line_fits(shaft@[k + 1], shaft@[k + 2], 1));
        }
        assert(all.take(0) =~= seq![]);
        canvas::lemma_next_layer(before, all, 0);
        canvas::lemma_next_layer(before, all, 1);
        canvas::lemma_next_layer(before, all, 2);
        assert(all.take(3) =~= all);
    }
    canvas::draw_polyline(buf, shaft.as_slice(), 5, OUTLINE);
    canvas::draw_polyline(buf, shaft.as_slice(), 3, SHAFT);
    canvas::draw_polyline(buf, light, 1, SHAFT_LIGHT);
}

/// Draws the eye near the tip of the feather.
fn draw_eye(buf: &mut [u32], held: &Held)
    requires
        canvas::screen(old(buf)@),
        holdable(held.pose()),
    ensures
        final(buf)@ == canvas::layered(old(buf)@, eye_layers(held.pose())),
{
    let ghost before = buf@;
    let ghost all = eye_layers(held.pose());
    proof {
        assert(all.take(0) =~= seq![]);
        canvas::lemma_next_layer(before, all, 0);
        canvas::lemma_next_layer(before, all, 1);
        canvas::lemma_next_layer(before, all, 2);
        canvas::lemma_next_layer(before, all, 3);
        assert(all.take(4) =~= all);
    }
    let x: i32 = held.x + 136 + held.sway + held.flutter;
    let y: i32 = held.y - 365;
    shapes::fill_ellipse(buf, x, y, 22, 33, OUTLINE);
    shapes::fill_ellipse(buf, x, y, 18, 28, EYE_GOLD);
    shapes::fill_ellipse(buf, x - 1, y + 2, 11, 18, EYE_TEAL);
    shapes::fill_ellipse(buf, x - 1, y + 3, 5, 9, EYE_BLUE);
}

/// Draws the nib.
fn draw_nib(buf: &mut [u32], held: &Held)
    requires
        canvas::screen(old(buf)@),
        holdable(held.pose()),
    ensures
        final(buf)@ == canvas::layered(old(buf)@, nib_layers(held.pose())),
{
    let ghost before = buf@;
    let ghost all = nib_layers(held.pose());
    proof {
        assert(all.take(0) =~= seq![]);
        canvas::lemma_next_layer(before, all, 0);
        canvas::lemma_next_layer(before, all, 1);
        canvas::lemma_next_layer(before, all, 2);
        canvas::lemma_next_layer(before, all, 3);
        assert(all.take(4) =~= all);
    }
    let a = held.off(0, 0);
    let b = held.off(7, -17);
    let c = held.off(20, -9);
    let d = held.off(2, -1);
    let e = held.off(8, -14);
    let f = held.off(17, -8);
    let g = held.off(4, -3);
    let h = held.off(12, -11);
    proof {
        shapes::lemma_close_triangle(a, b, c);
        shapes::lemma_close_triangle(d, e, f);
        shapes::lemma_close_line(g, h, 1);
    }
    shapes::fill_triangle(buf, a, b, c, OUTLINE);
    shapes::fill_triangle(buf, d, e, f, NIB);
    canvas::draw_line(buf, g, h, 1, NIB_LIGHT);
    canvas::put_disk(buf, held.x, held.y, 1, OUTLINE);
}

/// The waves of the quill.
pub proof fn lemma_waves(frame: int)
    requires
        0 <= frame,
    ensures
        wave_fits(frame, 84, 11),
        wave_fits(frame + 21, 58, 5),
        wave_fits(frame + 11, 96, 1),
        -11 <= wave(frame, 84, 11) <= 11,
        -5 <= wave(frame + 21, 58, 5) <= 5,
        -1 <= wave(frame + 11, 96, 1) <= 1,
{
    law_wave_stays_between(frame, 84, 11);
    law_wave_stays_between(frame + 21, 58, 5);
    law_wave_stays_between(frame + 11, 96, 1);
}

/// Draws the quill with its nib at a point, in a frame of its movement.
pub fn draw_quill_cursor<
    C: Fn(i32, i32, (i32, i32), (i32, i32)) -> bool,
    M: Fn(i32, i32, usize, (i32, i32), i32) -> (i32, i32),
>(buf: &mut [u32], x: i32, y: i32, frame: u64, down: bool, crosses: &C, moves: &M)
    requires
        canvas::screen(old(buf)@),
        in_reach(x as int, y as int),
        frame <= u64::MAX - 21,
        polygon::crosses_all(*crosses),
        polygon::moves_all(*moves),
    ensures
        final(buf)@.len() == old(buf)@.len(),
        forall|cross: polygon::Cross, inward: polygon::Inward|
            #![trigger polygon::crosses_as(*crosses, cross), polygon::moves_as(*moves, inward)]
            polygon::crosses_as(*crosses, cross) && polygon::moves_as(*moves, inward) ==> final(buf)@ == canvas::layered(
                old(buf)@,
                quill_layers(pose(x as int, y as int, frame as int, down), cross, inward),
            ),
{
    let ghost before = buf@;
    proof {
        lemma_waves(frame as int);
    }
    let sway: i32 = triangle_wave(frame, 84, 11);
    let flutter: i32 = triangle_wave(frame + 21, 58, 5);
    let nib_y: i32 = if down { y + 1 } else { y + triangle_wave(frame + 11, 96, 1) };
    let held = Held { x, y: nib_y, sway, flutter };
    let ghost q = held.pose();
    assert(q == pose(x as int, y as int, frame as int, down));
    let shaft = held.shaft();
    draw_vanes(buf, &held, &shaft, crosses, moves);
    let ghost mid = buf@;
    draw_feather(buf, &held, &shaft);
    proof {
        let a = feather_layers(q);
        let b = shaft_layers(q);
        let c = eye_layers(q);
        let d = nib_layers(q);
        canvas::lemma_layered_concat(mid, a, b);
        canvas::lemma_layered_concat(mid, a + b, c);
        canvas::lemma_layered_concat(mid, a + b + c, d);
        canvas::lemma_layered_len(mid, a);
        canvas::lemma_layered_len(mid, a + b);
        canvas::lemma_layered_len(mid, a + b + c);
        canvas::lemma_layered_len(mid, a + b + c + d);
    }
    draw_shaft(buf, &held, &shaft);
    draw_eye(buf, &held);
    draw_nib(buf, &held);
    proof {
        assert forall|cross: polygon::Cross, inward: polygon::Inward|
            #![trigger polygon::crosses_as(*crosses, cross), polygon::moves_as(*moves, inward)]
            polygon::crosses_as(*crosses, cross) && polygon::moves_as(
                *moves,
                inward,
            ) implies buf@ == canvas::layered(before, quill_layers(q, cross, inward)) by {
            canvas::lemma_layered_concat(before, vane_layers(q, cross, inward), upper_layers(q));
        }
    }
}

} // verus!
