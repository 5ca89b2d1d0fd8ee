//! The diary in a window: what is on the screen, and what the mouse means.
//!
//! The canvas keeps its native size so that the picture of the writing and the
//! layout of replies are the same everywhere; a window stretches it.

use vstd::prelude::*;

use crate::canvas;
use crate::cursor;
use crate::cursor::Rect;
use crate::fb::{SCREEN_H, SCREEN_W};
use crate::frame;
use crate::number;
use crate::polygon;
use crate::qtfb::{InputEvent, INPUT_PEN_PRESS, INPUT_PEN_RELEASE, INPUT_PEN_UPDATE};
use crate::quill;
use crate::surface::Surface;
use crate::text;

verus! {

/// A page without ink.
pub const WHITE: u32 = 0xFFFF_FFFF;

/// How wide the window is when nothing else is asked for.
pub const DEFAULT_WINDOW_W: usize = 540;

/// How high the window is when nothing else is asked for.
pub const DEFAULT_WINDOW_H: usize = 720;

/// A size from its setting: a number that a `usize` can hold, or the default.
pub open spec fn size_or(s: Option<String>, default: int) -> int {
    match s {
        Some(s) => match number::number_of(s@, 10, usize::MAX as int) {
            Some(n) => n,
            None => default,
        },
        None => default,
    }
}

fn setting_or(s: &Option<String>, default: usize) -> (n: usize)
    ensures
        n == size_or(*s, default as int),
{
    match s {
        Some(s) => {
            let cs = text::chars_of(s.as_str());
            match number::parse_number(cs.as_slice(), 10, usize::MAX as u64) {
                Some(n) => n as usize,
                None => default,
            }
        },
        None => default,
    }
}

/// The size of the window from its settings.
pub fn window_size(w: &Option<String>, h: &Option<String>) -> (r: (usize, usize))
    ensures
        r.0 == size_or(*w, DEFAULT_WINDOW_W as int),
        r.1 == size_or(*h, DEFAULT_WINDOW_H as int),
{
    (setting_or(w, DEFAULT_WINDOW_W), setting_or(h, DEFAULT_WINDOW_H))
}

/// A report of the pen.
pub fn pen_event(input_type: i32, x: i32, y: i32, d: i32) -> (e: InputEvent)
    ensures
        e == (InputEvent { input_type, dev_id: 0, x, y, d }),
{
    InputEvent { input_type, dev_id: 0, x, y, d }
}

/// How hard the pen presses; negative when it erases.
pub open spec fn press(erasing: bool) -> i32 {
    if erasing {
        (-100) as i32
    } else {
        80
    }
}

/// How hard the pen presses; negative when it erases.
pub fn pressure(erasing: bool) -> (d: i32)
    ensures
        d == press(erasing),
{
    if erasing {
        -100
    } else {
        80
    }
}

/// A report of the pen.
pub open spec fn report(input_type: i32, p: (i32, i32), d: i32) -> InputEvent {
    InputEvent { input_type, dev_id: 0, x: p.0, y: p.1, d }
}

/// What the mouse was doing, where it last reported, and what is on the screen.
pub struct Screen {
    /// The page in its cover.
    pub base: Seq<u32>,
    /// What is shown: the base, and the quill over it.
    pub shown: Seq<u32>,
    /// Where the quill is.
    pub cursor: Option<Rect>,
    /// How many frames have been shown.
    pub frame: int,
    /// A button of the mouse is down.
    pub down: bool,
    /// Where the pen last reported in this stroke.
    pub last: Option<(i32, i32)>,
}

/// What is shown without the quill.
pub open spec fn without_quill(s: Screen) -> Seq<u32> {
    match s.cursor {
        Some(rect) => cursor::patched(s.base, s.shown, rect),
        None => s.shown,
    }
}

/// The number of the next frame; after the last one it starts again.
pub open spec fn next_frame(frame: int) -> int {
    if frame == u64::MAX {
        0
    } else {
        frame + 1
    }
}

/// The screen in the next frame, with the mouse at `pos`: the quill is taken
/// from where it was and drawn where it is.
pub open spec fn presented(
    s: Screen,
    pos: Option<(i32, i32)>,
    cross: polygon::Cross,
    inward: polygon::Inward,
) -> Screen {
    let n = next_frame(s.frame);
    match pos {
        Some(p) => Screen {
            shown: canvas::layered(
                without_quill(s),
                quill::quill_layers(
                    quill::pose(p.0 as int, p.1 as int, n, s.down),
                    cross,
                    inward,
                ),
            ),
            cursor: cursor::quill_rect(p.0 as int, p.1 as int),
            frame: n,
            ..s
        },
        None => Screen { shown: without_quill(s), cursor: None, frame: n, ..s },
    }
}

/// `t` is the frame after `s`, with the mouse at `pos`, as far as it does not
/// depend on how the vanes of the quill are drawn.
pub open spec fn moved_on(s: Screen, t: Screen, pos: Option<(i32, i32)>) -> bool {
    &&& t.base == s.base
    &&& t.frame == next_frame(s.frame)
    &&& t.down == s.down
    &&& t.last == s.last
    &&& t.cursor == match pos {
        Some(p) => cursor::quill_rect(p.0 as int, p.1 as int),
        None => None,
    }
}

/// The screen with another page in its cover, and no quill.
pub open spec fn rebuilt(s: Screen, page: Seq<u32>) -> Screen {
    let base = canvas::layered(page, frame::frame_layers());
    Screen { base, shown: base, cursor: None, ..s }
}

/// A place from which the quill can be drawn.
pub open spec fn drawable(pos: Option<(i32, i32)>) -> bool {
    pos matches Some(p) ==> quill::in_reach(p.0 as int, p.1 as int)
}

/// What the pen reports, and where it last did, when the buttons and the mouse
/// are so: a press, where a button goes down; an update, where it is held and
/// the mouse has moved; a release, where it goes up. The right button erases.
pub open spec fn pen_reports(
    down: bool,
    last: Option<(i32, i32)>,
    left: bool,
    right: bool,
    pos: Option<(i32, i32)>,
) -> (Seq<InputEvent>, Option<(i32, i32)>) {
    let now = left || right;
    if !down && now && pos is Some {
        (seq![report(INPUT_PEN_PRESS, pos->0, press(right))], pos)
    } else if down && now && pos is Some && last != pos {
        (seq![report(INPUT_PEN_UPDATE, pos->0, press(right))], pos)
    } else if down && !now {
        (
            seq![
                report(
                    INPUT_PEN_RELEASE,
                    match last {
                        Some(p) => p,
                        None => (0, 0),
                    },
                    0,
                ),
            ],
            None,
        )
    } else {
        (seq![], last)
    }
}

/// The message when the window is gone.
pub const WINDOW_CLOSED: &'static str = "desktop window closed";

/// Why there is nothing more to report.
pub enum PumpError {
    /// The window was closed, or Escape pressed.
    ConnectionReset,
}

/// A frame that the quill can be drawn in: the numbers of its waves are `u64`s.
pub open spec fn frame_fits(frame: int) -> bool {
    frame <= u64::MAX - 21
}

/// The diary in a window.
pub struct DesktopDisplay {
    base_buffer: Vec<u32>,
    present_buffer: Vec<u32>,
    mouse_down: bool,
    last_pos: Option<(i32, i32)>,
    cursor_rect: Option<Rect>,
    frame: u64,
}

/// A buffer of one colour.
fn plain(n: usize, color: u32) -> (buf: Vec<u32>)
    ensures
        buf@ == Seq::new(n as nat, |i: int| color),
{
    let mut buf: Vec<u32> = Vec::new();
    while buf.len() < n
        invariant
            buf@.len() <= n,
            forall|i: int| 0 <= i < buf@.len() ==> buf@[i] == color,
        decreases n - buf@.len(),
    {
        buf.push(color);
    }
    assert(buf@ =~= Seq::new(n as nat, |i: int| color));
    buf
}

impl DesktopDisplay {
    /// What is on the screen, and what the mouse was doing.
    pub closed spec fn state(&self) -> Screen {
        Screen {
            base: self.base_buffer@,
            shown: self.present_buffer@,
            cursor: self.cursor_rect,
            frame: self.frame as int,
            down: self.mouse_down,
            last: self.last_pos,
        }
    }

    /// Both buffers have the size of the screen, and the quill is on it.
    pub open spec fn wf(&self) -> bool {
        &&& self.state().base.len() == SCREEN_W * SCREEN_H
        &&& self.state().shown.len() == SCREEN_W * SCREEN_H
        &&& self.state().cursor matches Some(rect) ==> rect.on_screen()
        &&& 0 <= self.state().frame <= u64::MAX
    }

    /// A diary with an empty page, and the page.
    pub fn open() -> (r: (Self, Surface))
        ensures
            r.0.wf(),
            r.0.state() == (Screen {
                base: canvas::layered(r.1.pixels@, frame::frame_layers()),
                shown: canvas::layered(r.1.pixels@, frame::frame_layers()),
                cursor: None,
                frame: 0,
                down: false,
                last: None,
            }),
            r.1.wf(),
            r.1.w == SCREEN_W,
            r.1.h == SCREEN_H,
            r.1.pixels@ == Seq::new((SCREEN_W * SCREEN_H) as nat, |i: int| WHITE),
            r.1.paper@ == r.1.pixels@,
    {
        let page = plain(SCREEN_W * SCREEN_H, WHITE);
        let surface = Surface::new(SCREEN_W, SCREEN_H, page);
        let mut base_buffer = vstd::slice::slice_to_vec(surface.pixels.as_slice());
        frame::draw_diary_frame(base_buffer.as_mut_slice());
        proof {
            canvas::lemma_layered_len(surface.pixels@, frame::frame_layers());
        }
        let present_buffer = vstd::slice::slice_to_vec(base_buffer.as_slice());
        let display = DesktopDisplay {
            base_buffer,
            present_buffer,
            mouse_down: false,
            last_pos: None,
            cursor_rect: None,
            frame: 0,
        };
        (display, surface)
    }

    /// What to show in the window, row by row.
    pub fn picture(&self) -> (r: &[u32])
        ensures
            r@ == self.state().shown,
    {
        self.present_buffer.as_slice()
    }

    /// Takes another page.
    pub fn rebuild_base(&mut self, page: &[u32])
        requires
            old(self).wf(),
            page@.len() == SCREEN_W * SCREEN_H,
        ensures
            final(self).wf(),
            final(self).state() == rebuilt(old(self).state(), page@),
    {
        let mut base = vstd::slice::slice_to_vec(page);
        frame::draw_diary_frame(base.as_mut_slice());
        proof {
            canvas::lemma_layered_len(page@, frame::frame_layers());
        }
        self.present_buffer = vstd::slice::slice_to_vec(base.as_slice());
        self.base_buffer = base;
        self.cursor_rect = None;
    }

    /// Whether the quill can be drawn in the next frame.
    pub fn can_present(&self) -> (r: bool)
        requires
            self.wf(),
        ensures
            r == frame_fits(next_frame(self.state().frame)),
    {
        self.frame == u64::MAX || self.frame < u64::MAX - 21
    }

    /// Makes the next frame, with the mouse at `pos`.
    pub fn present<
        C: Fn(i32, i32, (i32, i32), (i32, i32)) -> bool,
        M: Fn(i32, i32, usize, (i32, i32), i32) -> (i32, i32),
    >(&mut self, pos: Option<(i32, i32)>, crosses: &C, moves: &M)
        requires
            old(self).wf(),
            drawable(pos),
            pos is Some ==> frame_fits(next_frame(old(self).state().frame)),
            polygon::crosses_all(*crosses),
            polygon::moves_all(*moves),
        ensures
            final(self).wf(),
            moved_on(old(self).state(), final(self).state(), pos),
            forall|cross: polygon::Cross, inward: polygon::Inward|
                #![trigger polygon::crosses_as(*crosses, cross), polygon::moves_as(*moves, inward)]
                polygon::crosses_as(*crosses, cross) && polygon::moves_as(*moves, inward)
                    ==> final(self).state() == presented(old(self).state(), pos, cross, inward),
    {
        let ghost s = self.state();
        self.frame = if self.frame == u64::MAX { 0 } else { self.frame + 1 };
        if let Some(rect) = self.cursor_rect {
            cursor::copy_rect_u32(
                self.base_buffer.as_slice(),
                self.present_buffer.as_mut_slice(),
                rect,
            );
        }
        self.cursor_rect = None;
        assert(self.present_buffer@ == without_quill(s));
        if let Some((x, y)) = pos {
            quill::draw_quill_cursor(
                self.present_buffer.as_mut_slice(),
                x,
                y,
                self.frame,
                self.mouse_down,
                crosses,
                moves,
            );
            self.cursor_rect = cursor::cursor_bounds(x, y);
        }
    }

    /// Shows another page after a part of it has changed.
    pub fn update_region<
        C: Fn(i32, i32, (i32, i32), (i32, i32)) -> bool,
        M: Fn(i32, i32, usize, (i32, i32), i32) -> (i32, i32),
    >(
        &mut self,
        _x: i32,
        _y: i32,
        _w: i32,
        _h: i32,
        page: &[u32],
        pos: Option<(i32, i32)>,
        crosses: &C,
        moves: &M,
    )
        requires
            old(self).wf(),
            page@.len() == SCREEN_W * SCREEN_H,
            drawable(pos),
            pos is Some ==> frame_fits(next_frame(old(self).state().frame)),
            polygon::crosses_all(*crosses),
            polygon::moves_all(*moves),
        ensures
            final(self).wf(),
            moved_on(rebuilt(old(self).state(), page@), final(self).state(), pos),
            forall|cross: polygon::Cross, inward: polygon::Inward|
                #![trigger polygon::crosses_as(*crosses, cross), polygon::moves_as(*moves, inward)]
                polygon::crosses_as(*crosses, cross) && polygon::moves_as(*moves, inward)
                    ==> final(self).state() == presented(
                    rebuilt(old(self).state(), page@),
                    pos,
                    cross,
                    inward,
                ),
    {
        self.rebuild_base(page);
        self.present(pos, crosses, moves);
    }

    /// Shows another page.
    pub fn update_all<
        C: Fn(i32, i32, (i32, i32), (i32, i32)) -> bool,
        M: Fn(i32, i32, usize, (i32, i32), i32) -> (i32, i32),
    >(&mut self, page: &[u32], pos: Option<(i32, i32)>, crosses: &C, moves: &M)
        requires
            old(self).wf(),
            page@.len() == SCREEN_W * SCREEN_H,
            drawable(pos),
            pos is Some ==> frame_fits(next_frame(old(self).state().frame)),
            polygon::crosses_all(*crosses),
            polygon::moves_all(*moves),
        ensures
            final(self).wf(),
            moved_on(rebuilt(old(self).state(), page@), final(self).state(), pos),
            forall|cross: polygon::Cross, inward: polygon::Inward|
                #![trigger polygon::crosses_as(*crosses, cross), polygon::moves_as(*moves, inward)]
                polygon::crosses_as(*crosses, cross) && polygon::moves_as(*moves, inward)
                    ==> final(self).state() == presented(
                    rebuilt(old(self).state(), page@),
                    pos,
                    cross,
                    inward,
                ),
    {
        self.rebuild_base(page);
        self.present(pos, crosses, moves);
    }

    /// Shows another page, all of it anew.
    pub fn full_refresh<
        C: Fn(i32, i32, (i32, i32), (i32, i32)) -> bool,
        M: Fn(i32, i32, usize, (i32, i32), i32) -> (i32, i32),
    >(&mut self, page: &[u32], pos: Option<(i32, i32)>, crosses: &C, moves: &M)
        requires
            old(self).wf(),
            page@.len() == SCREEN_W * SCREEN_H,
            drawable(pos),
            pos is Some ==> frame_fits(next_frame(old(self).state().frame)),
            polygon::crosses_all(*crosses),
            polygon::moves_all(*moves),
        ensures
            final(self).wf(),
            moved_on(rebuilt(old(self).state(), page@), final(self).state(), pos),
            forall|cross: polygon::Cross, inward: polygon::Inward|
                #![trigger polygon::crosses_as(*crosses, cross), polygon::moves_as(*moves, inward)]
                polygon::crosses_as(*crosses, cross) && polygon::moves_as(*moves, inward)
                    ==> final(self).state() == presented(
                    rebuilt(old(self).state(), page@),
                    pos,
                    cross,
                    inward,
                ),
    {
        self.rebuild_base(page);
        self.present(pos, crosses, moves);
    }

    /// What the pen reports, when the buttons and the mouse are so.
    pub fn pump(&mut self, left: bool, right: bool, pos: Option<(i32, i32)>) -> (out: Vec<
        InputEvent,
    >)
        requires
            old(self).wf(),
        ensures
            final(self).wf(),
            ({
                let s = old(self).state();
                let (events, last) = pen_reports(s.down, s.last, left, right, pos);
                out@ == events && final(self).state() == (Screen {
                    down: left || right,
                    last,
                    ..s
                })
            }),
    {
        let down = left || right;
        let mut out: Vec<InputEvent> = Vec::new();
        let ghost s = self.state();
        if !self.mouse_down && down {
            if let Some((x, y)) = pos {
                out.push(pen_event(INPUT_PEN_PRESS, x, y, pressure(right)));
                self.last_pos = Some((x, y));
            }
        } else if self.mouse_down && down {
            if let Some((x, y)) = pos {
                let moved = match self.last_pos {
                    Some((lx, ly)) => lx != x || ly != y,
                    None => true,
                };
                if moved {
                    out.push(pen_event(INPUT_PEN_UPDATE, x, y, pressure(right)));
                    self.last_pos = Some((x, y));
                }
            }
        } else if self.mouse_down {
            let (x, y) = match self.last_pos {
                Some(p) => p,
                None => (0, 0),
            };
            out.push(pen_event(INPUT_PEN_RELEASE, x, y, 0));
            self.last_pos = None;
        }
        self.mouse_down = down;
        assert(out@ =~= pen_reports(s.down, s.last, left, right, pos).0);
        out
    }

    /// What the pen reports, as long as the window is there: closing it or
    /// pressing Escape quits, and leaves everything as it was.
    pub fn pump_window(
        &mut self,
        closed: bool,
        escape: bool,
        left: bool,
        right: bool,
        pos: Option<(i32, i32)>,
    ) -> (r: Result<Vec<InputEvent>, PumpError>)
        requires
            old(self).wf(),
        ensures
            final(self).wf(),
            ({
                let s = old(self).state();
                let (events, last) = pen_reports(s.down, s.last, left, right, pos);
                match r {
                    Err(PumpError::ConnectionReset) => (closed || escape) && final(self).state()
                        == s,
                    Ok(out) => !closed && !escape && out@ == events && final(self).state() == (
                    Screen { down: left || right, last, ..s }),
                }
            }),
    {
        if closed || escape {
            return Err(PumpError::ConnectionReset);
        }
        Ok(self.pump(left, right, pos))
    }
}

/// The screen shows the page in its cover, but for where the quill is.
pub open spec fn clean(s: Screen) -> bool {
    &&& s.base.len() == s.shown.len()
    &&& forall|i: int|
        0 <= i < s.shown.len() && #[trigger] s.shown[i] != s.base[i] ==> i < SCREEN_W * SCREEN_H
            && s.cursor is Some && (s.cursor->0).region()(
            i % (SCREEN_W as int),
            i / (SCREEN_W as int),
        )
}

/// The quill leaves no trace: in every frame the screen shows the page in its
/// cover, but for where the quill is now.
pub proof fn law_quill_leaves_no_trace(
    s: Screen,
    pos: Option<(i32, i32)>,
    cross: polygon::Cross,
    inward: polygon::Inward,
)
    requires
        clean(s),
        drawable(pos),
        0 <= s.frame,
        pos matches Some(p) ==> cursor::gentle(inward, p.0 as int, p.1 as int),
    ensures
        clean(presented(s, pos, cross, inward)),
{
    let bare = without_quill(s);
    assert(bare =~= s.base);
    if let Some(p) = pos {
        let (x, y) = (p.0 as int, p.1 as int);
        let n = next_frame(s.frame);
        let layers = quill::quill_layers(quill::pose(x, y, n, s.down), cross, inward);
        cursor::law_quill_stays_in_its_bounds(x, y, n, s.down, cross, inward);
        let shown = canvas::layered(bare, layers);
        canvas::lemma_layered_len(bare, layers);
        let w = SCREEN_W as int;
        assert forall|i: int|
            0 <= i < shown.len() && #[trigger] shown[i] != s.base[i] implies i < SCREEN_W * SCREEN_H
            && cursor::quill_rect(x, y) is Some && (cursor::quill_rect(x, y)->0).region()(
            i % w,
            i / w,
        ) by {
            if !(i < SCREEN_W * SCREEN_H && x - 28 <= i % w < x + 206 && y - 446 <= i / w < y
                + 24) {
                cursor::law_layers_change_only_their_place(
                    bare,
                    layers,
                    x - 28,
                    y - 446,
                    x + 206,
                    y + 24,
                    i,
                );
            } else {
                crate::raster::lemma_index_pixel(i, w, SCREEN_H as int);
            }
        }
    }
}

/// A page in its cover is shown as it is, whatever was shown before.
pub proof fn law_a_new_page_is_clean(s: Screen, page: Seq<u32>)
    ensures
        clean(rebuilt(s, page)),
{
}

/// A stroke ends where it last was: after a report at `p`, letting the buttons
/// go reports the release there.
pub proof fn law_a_stroke_ends_where_it_was(
    down: bool,
    last: Option<(i32, i32)>,
    left: bool,
    right: bool,
    pos: Option<(i32, i32)>,
    later: Option<(i32, i32)>,
)
    requires
        left || right,
    ensures
        pen_reports(down, last, left, right, pos).0.len() > 0 ==> {
            let (_, reported) = pen_reports(down, last, left, right, pos);
            &&& reported == pos
            &&& pen_reports(true, reported, false, false, later) == (
                seq![report(INPUT_PEN_RELEASE, pos->0, 0)],
                None::<(i32, i32)>,
            )
        },
{
}

/// What is on the page is seen: where the cover leaves the page open and the
/// quill is not, the screen shows the page.
pub proof fn law_the_page_is_seen(
    s: Screen,
    page: Seq<u32>,
    pos: Option<(i32, i32)>,
    cross: polygon::Cross,
    inward: polygon::Inward,
    x: int,
    y: int,
)
    requires
        page.len() == SCREEN_W * SCREEN_H,
        0 <= s.frame,
        drawable(pos),
        pos matches Some(p) ==> cursor::gentle(inward, p.0 as int, p.1 as int),
        89 <= x < 1551,
        80 <= y < 2060,
        pos matches Some(p) ==> !(p.0 - 28 <= x < p.0 + 206 && p.1 - 446 <= y < p.1 + 24),
    ensures
        presented(rebuilt(s, page), pos, cross, inward).shown[y * SCREEN_W + x] == page[y * SCREEN_W
            + x],
{
    let before = rebuilt(s, page);
    let after = presented(before, pos, cross, inward);
    let i = y * SCREEN_W + x;
    law_a_new_page_is_clean(s, page);
    law_quill_leaves_no_trace(before, pos, cross, inward);
    crate::raster::lemma_pixel_index(x, y, SCREEN_W as int);
    crate::raster::lemma_pixel_bound(x, y, SCREEN_W as int, SCREEN_H as int);
    canvas::lemma_layered_len(page, frame::frame_layers());
    crate::cover::law_cover_leaves_the_page_free(page, x, y);
    assert(after.base == before.base);
    if after.shown[i] != after.base[i] {
        let p = pos->0;
        crate::drawing::law_the_rectangle_of_the_quill(p.0 as int, p.1 as int, x, y);
    }
}

/// A press is reported where the mouse is when a button goes down, and the pen
/// erases exactly if the right button is down; nothing is reported while no
/// button is down or was.
pub proof fn law_a_button_is_the_pen(
    last: Option<(i32, i32)>,
    left: bool,
    right: bool,
    x: i32,
    y: i32,
)
    ensures
        pen_reports(false, last, false, false, Some((x, y))) == (Seq::<InputEvent>::empty(), last),
        left || right ==> ({
            let (events, now) = pen_reports(false, last, left, right, Some((x, y)));
            &&& events.len() == 1
            &&& events[0].input_type == INPUT_PEN_PRESS
            &&& events[0].x == x && events[0].y == y
            &&& events[0].d < 0 <==> right
            &&& events[0].d != 0
            &&& now == Some((x, y))
            &&& pen_reports(true, now, left, right, Some((x, y))) == (
                Seq::<InputEvent>::empty(),
                now,
            )
        }),
        left || right ==> forall|u: i32, v: i32|
            (u, v) != (x, y) ==> ({
                let (events, now) = #[trigger] pen_reports(
                    true,
                    Some((x, y)),
                    left,
                    right,
                    Some((u, v)),
                );
                &&& events.len() == 1
                &&& events[0].input_type == INPUT_PEN_UPDATE
                &&& events[0].x == u && events[0].y == v
                &&& events[0].d < 0 <==> right
                &&& events[0].d != 0
                &&& now == Some((u, v))
            }),
{
}

} // verus!
