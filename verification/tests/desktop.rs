use riddle::canvas::{draw_line, draw_polyline, draw_rect_u32, fill_rect_u32, put_disk, put_px};
use riddle::cursor::{copy_rect_u32, cursor_bounds, rect_from_i32, Rect};
use riddle::desktop::{pen_event, pressure, window_size, DesktopDisplay, PumpError, WHITE};
use riddle::fb::{SCREEN_H, SCREEN_W};
use riddle::frame::{draw_corner_plate, draw_diary_frame};
use riddle::lettering::{draw_text, glyph_5x7};
use riddle::polygon::{fill_polygon, fill_polygon_inset, point_in_polygon};
use riddle::qtfb::{InputEvent, INPUT_PEN_PRESS, INPUT_PEN_RELEASE, INPUT_PEN_UPDATE};
use riddle::quill::{draw_quill_cursor, triangle_wave};
use riddle::shapes::{edge, fill_ellipse, fill_triangle};

const INK: u32 = 0xFF11_2233;

fn blank() -> Vec<u32> {
    vec![WHITE; SCREEN_W * SCREEN_H]
}

fn at(buf: &[u32], x: usize, y: usize) -> u32 {
    buf[y * SCREEN_W + x]
}

/// The pixels in a colour that lie in the first hundred rows and columns.
fn dots(buf: &[u32], color: u32) -> Vec<(usize, usize)> {
    let mut out = Vec::new();
    for y in 0..100 {
        for x in 0..100 {
            if at(buf, x, y) == color {
                out.push((x, y));
            }
        }
    }
    out
}

fn crosses(px: i32, py: i32, a: (i32, i32), b: (i32, i32)) -> bool {
    let (px, py) = (px as f32 + 0.5, py as f32 + 0.5);
    let (xi, yi) = (a.0 as f32, a.1 as f32);
    let (xj, yj) = (b.0 as f32, b.1 as f32);
    (yi > py) != (yj > py) && px < (xj - xi) * (py - yi) / (yj - yi) + xi
}

fn moves(sx: i32, sy: i32, n: usize, p: (i32, i32), inset: i32) -> (i32, i32) {
    let (cx, cy) = (sx as f32 / n as f32, sy as f32 / n as f32);
    let (dx, dy) = (cx - p.0 as f32, cy - p.1 as f32);
    let len = (dx * dx + dy * dy).sqrt().max(1.0);
    (
        (p.0 as f32 + dx * inset as f32 / len).round() as i32,
        (p.1 as f32 + dy * inset as f32 / len).round() as i32,
    )
}

#[test]
fn pixels_outside_the_screen_are_left_out() {
    let mut buf = blank();
    put_px(&mut buf, 0, 0, INK);
    put_px(&mut buf, -1, 0, INK);
    put_px(&mut buf, 0, -1, INK);
    put_px(&mut buf, SCREEN_W as i32, 0, INK);
    put_px(&mut buf, SCREEN_W as i32 - 1, SCREEN_H as i32 - 1, INK);
    put_px(&mut buf, 0, SCREEN_H as i32, INK);
    let inked: Vec<usize> = (0..buf.len()).filter(|&i| buf[i] == INK).collect();
    assert_eq!(inked, vec![0, SCREEN_W * SCREEN_H - 1]);
}

#[test]
fn a_disk_is_round() {
    let mut buf = blank();
    put_disk(&mut buf, 10, 10, 2, INK);
    let want: Vec<(usize, usize)> = vec![
        (10, 8),
        (9, 9),
        (10, 9),
        (11, 9),
        (8, 10),
        (9, 10),
        (10, 10),
        (11, 10),
        (12, 10),
        (9, 11),
        (10, 11),
        (11, 11),
        (10, 12),
    ];
    assert_eq!(dots(&buf, INK), want);
    put_disk(&mut buf, 50, 50, -1, INK);
    assert_eq!(dots(&buf, INK), want);
}

#[test]
fn lines_go_from_point_to_point() {
    let mut buf = blank();
    draw_line(&mut buf, (10, 10), (14, 12), 0, INK);
    assert_eq!(dots(&buf, INK), vec![(10, 10), (11, 10), (12, 11), (13, 11), (14, 12)]);
    let mut buf = blank();
    draw_line(&mut buf, (14, 12), (10, 10), 0, INK);
    assert_eq!(dots(&buf, INK), vec![(10, 10), (11, 11), (12, 11), (13, 12), (14, 12)]);
    let mut buf = blank();
    draw_polyline(&mut buf, &[(5, 5), (7, 5), (7, 7)], 0, INK);
    assert_eq!(dots(&buf, INK), vec![(5, 5), (6, 5), (7, 5), (7, 6), (7, 7)]);
    let mut buf = blank();
    draw_polyline(&mut buf, &[(5, 5)], 3, INK);
    draw_polyline(&mut buf, &[], 3, INK);
    assert!(dots(&buf, INK).is_empty());
}

#[test]
fn rectangles_are_cut_off_at_the_edge() {
    let mut buf = blank();
    fill_rect_u32(&mut buf, -3, -2, 5, 4, INK);
    assert_eq!(dots(&buf, INK), vec![(0, 0), (1, 0), (0, 1), (1, 1)]);
    let mut buf = blank();
    draw_rect_u32(&mut buf, 10, 10, 4, 3, 1, INK);
    assert_eq!(
        dots(&buf, INK),
        vec![
            (10, 10),
            (11, 10),
            (12, 10),
            (13, 10),
            (10, 11),
            (13, 11),
            (10, 12),
            (11, 12),
            (12, 12),
            (13, 12)
        ]
    );
}

#[test]
fn ellipses_are_filled() {
    let mut buf = blank();
    fill_ellipse(&mut buf, 20, 20, 2, 1, INK);
    assert_eq!(
        dots(&buf, INK),
        vec![(20, 19), (18, 20), (19, 20), (20, 20), (21, 20), (22, 20), (20, 21)]
    );
    let mut buf = blank();
    fill_ellipse(&mut buf, 20, 20, 0, 2, INK);
    assert_eq!(dots(&buf, INK), vec![(20, 18), (20, 19), (20, 20), (20, 21), (20, 22)]);
}

#[test]
fn triangles_hold_their_edges() {
    assert_eq!(edge((0, 0), (4, 0), (0, 4)), -16);
    assert_eq!(edge((0, 0), (0, 4), (4, 0)), 16);
    let want = vec![(10, 10), (11, 10), (12, 10), (10, 11), (11, 11), (10, 12)];
    for (a, b, c) in [((10, 10), (12, 10), (10, 12)), ((10, 12), (12, 10), (10, 10))] {
        let mut buf = blank();
        fill_triangle(&mut buf, a, b, c, INK);
        assert_eq!(dots(&buf, INK), want);
    }
    let mut buf = blank();
    fill_triangle(&mut buf, (10, 10), (12, 12), (20, 20), INK);
    assert!(dots(&buf, INK).is_empty());
}

#[test]
fn polygons_hold_the_pixels_whose_middle_they_hold() {
    let square = [(10, 10), (13, 10), (13, 12), (10, 12)];
    assert!(point_in_polygon(12, 11, &square, &crosses));
    assert!(!point_in_polygon(13, 11, &square, &crosses));
    let mut buf = blank();
    fill_polygon(&mut buf, &square, INK, &crosses);
    assert_eq!(
        dots(&buf, INK),
        vec![(10, 10), (11, 10), (12, 10), (10, 11), (11, 11), (12, 11)]
    );
    let mut buf = blank();
    fill_polygon(&mut buf, &square[..2], INK, &crosses);
    assert!(dots(&buf, INK).is_empty());
}

#[test]
fn a_polygon_can_be_inset() {
    let square = [(10, 10), (30, 10), (30, 30), (10, 30)];
    let mut buf = blank();
    fill_polygon_inset(&mut buf, &square, 7, INK, &crosses, &moves);
    // Each corner moves five pixels across and five down.
    let inked = dots(&buf, INK);
    assert_eq!(inked.len(), 100);
    assert_eq!((inked[0], inked[99]), ((15, 15), (24, 24)));
    let mut buf = blank();
    fill_polygon_inset(&mut buf, &square[..2], 7, INK, &crosses, &moves);
    assert!(dots(&buf, INK).is_empty());
}

#[test]
fn letters_are_made_of_dots() {
    assert_eq!(glyph_5x7('T'), [31, 4, 4, 4, 4, 4, 4]);
    assert_eq!(glyph_5x7('q'), [0; 7]);
    let mut buf = blank();
    draw_text(&mut buf, 10, 20, "L T", 1, INK);
    let inked = dots(&buf, INK);
    // The L stands at ten, and the T six dots and a space of four further on.
    assert!(inked.contains(&(10, 20)) && inked.contains(&(14, 26)));
    assert!(inked.contains(&(20, 20)) && inked.contains(&(22, 26)));
    assert_eq!(inked.len(), 11 + 11);
    let mut buf = blank();
    draw_text(&mut buf, 10, 20, "I", 2, INK);
    assert_eq!(dots(&buf, INK).len(), 15 * 4);
}

#[test]
fn waves_go_up_and_down() {
    let wave: Vec<i32> = [0, 21, 42, 60, 83, 84].iter().map(|&f| triangle_wave(f, 84, 11)).collect();
    assert_eq!(wave, vec![-11, 0, 11, 1, -11, -11]);
    let odd: Vec<i32> = (0..7).map(|f| triangle_wave(f, 7, 2)).collect();
    assert_eq!(odd, vec![-2, -1, 0, 3, 2, 0, -1]);
    for f in 0..200 {
        assert!((-5..=5).contains(&triangle_wave(f, 58, 5)));
        assert_eq!(triangle_wave(f + 58, 58, 5), triangle_wave(f, 58, 5));
    }
}

#[test]
fn bounds_are_cut_off_at_the_edge() {
    assert_eq!(rect_from_i32(-5, 10, 20, 30), Some(Rect { x: 0, y: 10, w: 20, h: 20 }));
    assert_eq!(rect_from_i32(10, 10, 10, 30), None);
    assert_eq!(rect_from_i32(-20, 0, -5, 30), None);
    assert_eq!(rect_from_i32(1600, 2150, 1700, 2200), Some(Rect { x: 1600, y: 2150, w: 20, h: 10 }));
    assert_eq!(cursor_bounds(100, 1000), Some(Rect { x: 72, y: 554, w: 234, h: 470 }));
    assert_eq!(cursor_bounds(0, 0), Some(Rect { x: 0, y: 0, w: 206, h: 24 }));
}

#[test]
fn a_rectangle_is_copied() {
    let src = vec![INK; SCREEN_W * SCREEN_H];
    let mut dst = blank();
    copy_rect_u32(&src, &mut dst, Rect { x: 3, y: 4, w: 2, h: 2 });
    assert_eq!(dots(&dst, INK), vec![(3, 4), (4, 4), (3, 5), (4, 5)]);
}

#[test]
fn the_cover_leaves_the_page_free() {
    let mut buf = vec![INK; SCREEN_W * SCREEN_H];
    draw_diary_frame(&mut buf);
    for y in 0..SCREEN_H {
        for x in 0..SCREEN_W {
            let open = (89..1554).contains(&x) && (77..2060).contains(&y) && x < y + 1474;
            assert_eq!(at(&buf, x, y) == INK, open);
        }
    }
    let once = buf.clone();
    draw_diary_frame(&mut buf);
    assert!(buf == once);
    assert_eq!(at(&buf, 1000, 10), 0xFF13_1110);
    assert_eq!(at(&buf, 10, 1000), 0xFF08_0707);
    assert_eq!(at(&buf, 76, 1000), 0xFF24_211E);
    assert_eq!(at(&buf, 86, 1000), 0xFF7A_7770);
    // The rim of the label, and the first dot of the name.
    assert_eq!(at(&buf, 560, 2087), 0xFF6F_5522);
    assert_eq!(at(&buf, 616, 2102), 0xFFB4_8D3A);
}

#[test]
fn corner_plates_face_inwards() {
    let mut buf = blank();
    draw_corner_plate(&mut buf, 0, 0, 1, 1);
    assert_eq!(at(&buf, 1, 1), 0xFF6B_5121);
    assert_eq!(at(&buf, 12, 12), 0xFFC1_9540);
    assert_eq!(at(&buf, 50, 50), 0xFF13_1110);
    let mut other = blank();
    draw_corner_plate(&mut other, 200, 200, -1, -1);
    assert_eq!(at(&other, 188, 188), 0xFFC1_9540);
    assert_eq!(at(&other, 150, 150), 0xFF13_1110);
}

#[test]
fn the_quill_stays_in_its_bounds() {
    for frame in [0u64, 21, 42, 63, 1000] {
        let mut buf = blank();
        draw_quill_cursor(&mut buf, 800, 1000, frame, true, &crosses, &moves);
        assert_eq!(at(&buf, 800, 1001), 0xFF12_100E);
        let r = cursor_bounds(800, 1000).unwrap();
        for y in 0..SCREEN_H {
            for x in 0..SCREEN_W {
                if at(&buf, x, y) != WHITE {
                    assert!(x >= r.x && x < r.x + r.w && y >= r.y && y < r.y + r.h);
                }
            }
        }
    }
}

#[test]
fn corners_near_the_screen_move_gently() {
    for (x, y) in [(0, 0), (1619, 0), (0, 2159), (1619, 2159), (800, 1000)] {
        for i in 0..=14 {
            for j in 0..=40 {
                let p = (x + 6 + 11 * i, y - 399 + 10 * j);
                for (mx, my) in [(6, -403), (160, -403), (6, 1), (160, 1), (80, -200)] {
                    let q = moves(10 * (x + mx), 10 * (y + my), 10, p, 5);
                    assert!((q.0 - p.0).abs() <= 6 && (q.1 - p.1).abs() <= 6);
                }
            }
        }
    }
}

#[test]
fn the_quill_leaves_no_trace() {
    let (mut display, surface) = DesktopDisplay::open();
    assert!(surface.pixels.iter().all(|&p| p == WHITE));
    let bare = display.picture().to_vec();
    display.present(Some((800, 1000)), &crosses, &moves);
    assert!(display.picture() != &bare[..]);
    display.present(Some((300, 20)), &crosses, &moves);
    assert_eq!(at(display.picture(), 800, 1000), WHITE);
    display.present(None, &crosses, &moves);
    assert!(display.picture() == &bare[..]);
}

#[test]
fn a_new_page_is_shown_in_its_cover() {
    let (mut display, mut surface) = DesktopDisplay::open();
    surface.stamp(800, 1000, 20, INK);
    display.update_all(&surface.pixels, None, &crosses, &moves);
    assert_eq!(at(display.picture(), 800, 1000), INK);
    assert_eq!(at(display.picture(), 10, 1000), 0xFF08_0707);
    surface.stamp_paper(800, 1000, 20);
    display.update_region(780, 980, 41, 41, &surface.pixels, None, &crosses, &moves);
    assert_eq!(at(display.picture(), 800, 1000), WHITE);
    surface.stamp(400, 400, 3, INK);
    display.full_refresh(&surface.pixels, Some((800, 1000)), &crosses, &moves);
    assert_eq!(at(display.picture(), 400, 400), INK);
    assert_ne!(at(display.picture(), 805, 990), WHITE);
}

#[test]
fn the_mouse_is_a_pen() {
    let (mut display, _) = DesktopDisplay::open();
    let event = |input_type, x, y, d| InputEvent { input_type, dev_id: 0, x, y, d };
    assert_eq!(pen_event(1, 2, 3, 4), event(1, 2, 3, 4));
    assert_eq!((pressure(false), pressure(true)), (80, -100));
    assert!(display.pump(false, false, Some((5, 5))).is_empty());
    assert_eq!(display.pump(true, false, Some((5, 5))), vec![event(INPUT_PEN_PRESS, 5, 5, 80)]);
    assert!(display.pump(true, false, Some((5, 5))).is_empty());
    assert_eq!(display.pump(true, false, Some((6, 5))), vec![event(INPUT_PEN_UPDATE, 6, 5, 80)]);
    assert!(display.pump(true, false, None).is_empty());
    assert_eq!(display.pump(false, false, Some((9, 9))), vec![event(INPUT_PEN_RELEASE, 6, 5, 0)]);
    assert!(display.pump(false, false, None).is_empty());
    assert_eq!(display.pump(false, true, Some((1, 2))), vec![event(INPUT_PEN_PRESS, 1, 2, -100)]);
    assert_eq!(display.pump(false, false, None), vec![event(INPUT_PEN_RELEASE, 1, 2, 0)]);
    // Pressed outside the window: nothing to report until the mouse is back.
    assert!(display.pump(true, false, None).is_empty());
    assert_eq!(display.pump(true, false, Some((3, 3))), vec![event(INPUT_PEN_UPDATE, 3, 3, 80)]);
    assert_eq!(display.pump(false, false, None), vec![event(INPUT_PEN_RELEASE, 3, 3, 0)]);
    assert!(display.pump(true, false, None).is_empty());
    assert_eq!(display.pump(false, false, None), vec![event(INPUT_PEN_RELEASE, 0, 0, 0)]);
}

#[test]
fn a_closed_window_reports_nothing() {
    let (mut display, _) = DesktopDisplay::open();
    let event = |input_type, x, y, d| InputEvent { input_type, dev_id: 0, x, y, d };
    let press = display.pump_window(false, false, true, false, Some((5, 6)));
    assert!(press.is_ok_and(|out| out == vec![event(INPUT_PEN_PRESS, 5, 6, 80)]));
    for (closed, escape) in [(true, false), (false, true), (true, true)] {
        let r = display.pump_window(closed, escape, false, false, Some((9, 9)));
        assert!(matches!(r, Err(PumpError::ConnectionReset)));
    }
    // The stroke goes on where it was.
    let release = display.pump_window(false, false, false, false, Some((9, 9)));
    assert!(release.is_ok_and(|out| out == vec![event(INPUT_PEN_RELEASE, 5, 6, 0)]));
    assert!(display.can_present());
}

#[test]
fn the_window_has_a_default_size() {
    assert_eq!(window_size(&None, &None), (540, 720));
    assert_eq!(window_size(&Some("720".to_string()), &Some("x".to_string())), (720, 720));
}
