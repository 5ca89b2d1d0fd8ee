use riddle::fb::BBox;
use riddle::ink::{dissolve_pass, px_hash, Ink, InkError};
use riddle::surface::{color_luma, Surface, BLACK};

const PAPER: u32 = 0xFFEE_EEEE;

fn page(w: usize, h: usize) -> Surface {
    Surface::new(w, h, vec![PAPER; w * h])
}

fn pixel(s: &Surface, x: usize, y: usize) -> u32 {
    s.pixels[y * s.w + x]
}

#[test]
fn a_pen_leaves_a_mark_in_its_dirty_box() {
    let mut s = page(100, 80);
    let mut ink = Ink::new();
    assert!(ink.is_empty());
    let d = ink.pen_point(&mut s, 50, 40, 3);
    assert_eq!((d.x0, d.y0, d.x1, d.y1), (45, 35, 55, 45));
    assert_eq!(pixel(&s, 50, 40), BLACK);
    assert_eq!(pixel(&s, 53, 40), BLACK);
    assert_eq!(pixel(&s, 53, 42), PAPER);
    assert_eq!(pixel(&s, 54, 40), PAPER);
    let d = ink.pen_point(&mut s, 60, 40, 5);
    assert_eq!((d.x0, d.y0, d.x1, d.y1), (45, 33, 67, 47));
    // The line is no more than one wider than the pen was.
    assert_eq!(pixel(&s, 55, 44), BLACK);
    assert_eq!(pixel(&s, 55, 45), PAPER);
    for y in 0..80 {
        for x in 0..100 {
            if pixel(&s, x, y) != PAPER {
                assert!((45..=67).contains(&x) && (33..=47).contains(&y));
            }
        }
    }
    assert!(!ink.is_empty());
    assert!(ink.stroke_list().is_empty());
    ink.pen_up();
    assert_eq!(ink.stroke_list().to_vec(), vec![vec![(50, 40, 3), (60, 40, 5)]]);
    let b = ink.bbox;
    assert_eq!((b.x0, b.y0, b.x1, b.y1), (45, 33, 67, 47));
}

#[test]
fn lifting_the_pen_twice_makes_one_stroke() {
    let mut s = page(40, 40);
    let mut ink = Ink::new();
    ink.pen_point(&mut s, 10, 10, 1);
    ink.pen_up();
    ink.pen_up();
    assert_eq!(ink.stroke_list().len(), 1);
    ink.clear();
    assert!(ink.is_empty());
    assert!(ink.bbox.is_empty());
}

#[test]
fn the_eraser_brings_the_paper_back() {
    let mut s = page(60, 60);
    let mut ink = Ink::new();
    ink.pen_point(&mut s, 20, 30, 4);
    ink.pen_point(&mut s, 40, 30, 4);
    let d = ink.erase_point(&mut s, 20, 30, 6);
    assert_eq!((d.x0, d.y0, d.x1, d.y1), (12, 22, 28, 38));
    assert_eq!(pixel(&s, 20, 30), PAPER);
    assert_eq!(pixel(&s, 35, 30), BLACK);
    let d = ink.erase_point(&mut s, 40, 30, 6);
    assert_eq!((d.x0, d.y0, d.x1, d.y1), (12, 22, 48, 38));
    assert!(s.pixels.iter().all(|&p| p == PAPER));
}

#[test]
fn marks_are_cut_off_at_the_edge_of_the_page() {
    let mut s = page(20, 20);
    let mut ink = Ink::new();
    ink.pen_point(&mut s, -2, 5, 3);
    assert_eq!(pixel(&s, 0, 5), BLACK);
    assert_eq!(pixel(&s, 1, 5), BLACK);
    assert_eq!(pixel(&s, 2, 5), PAPER);
}

#[test]
fn brightness_weighs_the_colours() {
    assert_eq!(color_luma(0xFFFF_FFFF), 255);
    assert_eq!(color_luma(BLACK), 0);
    assert_eq!(color_luma(0xFFFF_0000), 76);
    assert_eq!(color_luma(0xFF00_FF00), 149);
    assert_eq!(color_luma(0xFF00_00FF), 28);
    let s = page(3, 3);
    assert_eq!(s.luma(-1, 0), 255);
    assert_eq!(s.luma(1, 1), 238);
}

#[test]
fn the_hash_of_a_pixel_is_fixed() {
    assert_eq!(px_hash(0, 0), 0);
    assert_eq!(px_hash(3, 5), 0xed0f_636f);
    assert_eq!(px_hash(-1, 7), 0x6387_791d);
    assert_eq!(px_hash(10, 10), 0x2d19_2fb8);
}

#[test]
fn the_page_drinks_the_ink_stage_by_stage() {
    let mut s = page(50, 50);
    s.stamp(25, 25, 10, BLACK);
    let region = BBox { x0: 10, y0: 10, x1: 40, y1: 40 };
    let inked: Vec<usize> = (0..2500).filter(|&i| s.pixels[i] == BLACK).collect();
    let mut left = inked.len();
    for stage in 0..4u32 {
        dissolve_pass(&mut s, region, stage, 4);
        for &i in &inked {
            let (x, y) = ((i % 50) as i32, (i / 50) as i32);
            let drunk = px_hash(x, y) % 4 <= stage;
            assert_eq!(s.pixels[i], if drunk { PAPER } else { BLACK });
        }
        let now = s.pixels.iter().filter(|&&p| p == BLACK).count();
        assert!(now <= left);
        left = now;
    }
    assert!(s.pixels.iter().all(|&p| p == PAPER));
}

#[test]
fn dissolving_leaves_what_lies_outside() {
    let mut s = page(30, 30);
    s.stamp(5, 5, 2, BLACK);
    s.stamp(20, 20, 2, BLACK);
    dissolve_pass(&mut s, BBox { x0: 15, y0: 15, x1: 29, y1: 29 }, 0, 1);
    assert_eq!(pixel(&s, 20, 20), PAPER);
    assert_eq!(pixel(&s, 5, 5), BLACK);
    dissolve_pass(&mut s, BBox::empty(), 0, 1);
    assert_eq!(pixel(&s, 5, 5), BLACK);
}

#[test]
fn no_ink_makes_no_picture() {
    let s = page(100, 100);
    let ink = Ink::new();
    assert!(ink.to_gray(&s).is_none());
    assert!(matches!(ink.to_png(&s), Err(InkError::NoInk)));
}

#[test]
fn a_picture_too_flat_cannot_be_encoded() {
    let mut s = Surface::new(100, 1, vec![PAPER; 100]);
    let mut ink = Ink::new();
    ink.pen_point(&mut s, 50, 0, 1);
    assert!(matches!(ink.to_png(&s), Err(InkError::Encoding)));
}

#[test]
fn the_picture_is_the_ink_with_a_margin_at_half_size() {
    let mut s = page(300, 200);
    let mut ink = Ink::new();
    ink.pen_point(&mut s, 100, 80, 4);
    ink.pen_point(&mut s, 140, 80, 4);
    let image = ink.to_gray(&s).unwrap();
    // The box is 94..=146 by 74..=86, with twenty pixels around it.
    assert_eq!((image.w, image.h), (46, 26));
    // The middle of the stroke is black, the corner is white.
    assert_eq!(image.gray[13 * 46 + 23], 0);
    assert_eq!(image.gray[0], 255);
}

#[test]
fn a_long_line_is_scaled_down() {
    let mut s = page(1620, 100);
    let mut ink = Ink::new();
    ink.pen_point(&mut s, 10, 50, 2);
    ink.pen_point(&mut s, 1610, 50, 2);
    let image = ink.to_gray(&s).unwrap();
    assert_eq!((image.w, image.h), (540, 16));
    assert!(image.w <= 800 && image.h <= 800);
}

#[test]
fn the_png_holds_the_picture() {
    let mut s = page(300, 200);
    let mut ink = Ink::new();
    ink.pen_point(&mut s, 100, 80, 4);
    ink.pen_point(&mut s, 140, 95, 4);
    let image = ink.to_gray(&s).unwrap();
    let file = match ink.to_png(&s) {
        Ok(file) => file,
        Err(_) => panic!("expected a picture"),
    };
    let mut reader = png::Decoder::new(file.as_slice()).read_info().unwrap();
    let mut pixels = vec![0; reader.output_buffer_size()];
    let info = reader.next_frame(&mut pixels).unwrap();
    assert_eq!((info.width as usize, info.height as usize), (image.w, image.h));
    assert_eq!(info.color_type, png::ColorType::Grayscale);
    assert_eq!(pixels, image.gray);
}
