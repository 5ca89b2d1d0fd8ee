use ab_glyph::FontRef;
use riddle::script::{thin, trace, wrap, wrap_stack, wrap_tokens, FontStack, Line, Placed};

fn line(rows: &[&str]) -> Line {
    let height = rows.len();
    let width = rows[0].len();
    let mask = rows.iter().flat_map(|r| r.chars().map(|c| c == '#')).collect();
    Line { width, height, mask }
}

fn rows(line: &Line) -> Vec<String> {
    (0..line.height)
        .map(|y| {
            (0..line.width)
                .map(|x| if line.mask[y * line.width + x] { '#' } else { '.' })
                .collect()
        })
        .collect()
}

fn thinned(rows: &[&str]) -> Line {
    let mut l = line(rows);
    thin(&mut l);
    l
}

/// A font without outlines that maps each character to its glyph.
fn font_bytes(map: &[(char, u16)]) -> Vec<u8> {
    let mut head = vec![0u8; 54];
    head[18..20].copy_from_slice(&1000u16.to_be_bytes());
    let hhea = vec![0u8; 36];
    let mut maxp = 0x0000_5000u32.to_be_bytes().to_vec();
    maxp.extend(100u16.to_be_bytes());
    let mut sorted = map.to_vec();
    sorted.sort();
    let mut cmap: Vec<u8> = Vec::new();
    cmap.extend(0u16.to_be_bytes());
    cmap.extend(1u16.to_be_bytes());
    cmap.extend(0u16.to_be_bytes());
    cmap.extend(4u16.to_be_bytes());
    cmap.extend(12u32.to_be_bytes());
    cmap.extend(12u16.to_be_bytes());
    cmap.extend(0u16.to_be_bytes());
    cmap.extend((16 + 12 * sorted.len() as u32).to_be_bytes());
    cmap.extend(0u32.to_be_bytes());
    cmap.extend((sorted.len() as u32).to_be_bytes());
    for (c, id) in &sorted {
        cmap.extend((*c as u32).to_be_bytes());
        cmap.extend((*c as u32).to_be_bytes());
        cmap.extend((*id as u32).to_be_bytes());
    }
    let tables: [(&[u8; 4], Vec<u8>); 4] =
        [(b"cmap", cmap), (b"head", head), (b"hhea", hhea), (b"maxp", maxp)];
    let mut font: Vec<u8> = Vec::new();
    font.extend(0x0001_0000u32.to_be_bytes());
    font.extend(4u16.to_be_bytes());
    font.extend([0u8; 6]);
    let mut at = 12 + 16 * 4;
    for (tag, data) in &tables {
        font.extend_from_slice(*tag);
        font.extend(0u32.to_be_bytes());
        font.extend((at as u32).to_be_bytes());
        font.extend((data.len() as u32).to_be_bytes());
        at += data.len();
    }
    for (_, data) in &tables {
        font.extend_from_slice(data);
    }
    font
}

#[test]
fn thinning_leaves_a_skeleton() {
    let l = thinned(&[
        "...........",
        ".#########.",
        ".#########.",
        ".#########.",
        ".###...###.",
        ".###...###.",
        ".###...###.",
        "...........",
    ]);
    assert_eq!(
        rows(&l),
        vec![
            "...........",
            "...........",
            "..#######..",
            "..#.....#..",
            "..#.....#..",
            "...........",
            "...........",
            "...........",
        ]
    );
}

#[test]
fn thinning_twice_is_thinning_once() {
    let start = [
        "..........",
        ".########.",
        ".########.",
        ".##....##.",
        ".########.",
        ".########.",
        "..........",
    ];
    let once = thinned(&start);
    let shown = rows(&once);
    let mut twice = Line { width: once.width, height: once.height, mask: once.mask.clone() };
    thin(&mut twice);
    assert_eq!(rows(&twice), shown);
    for (a, b) in start.iter().zip(&shown) {
        assert!(a.chars().zip(b.chars()).all(|(a, b)| b == '.' || a == '#'));
    }
}

#[test]
fn thinning_keeps_the_edge_and_lone_dots() {
    let l = thinned(&["######", "######", "######"]);
    let shown = rows(&l);
    assert_eq!(shown[0], "######");
    assert_eq!(shown[2], "######");
    assert_eq!(rows(&thinned(&["...", ".#.", "..."])), vec!["...", ".#.", "..."]);
    // Too small to have an inside.
    assert_eq!(rows(&thinned(&["##", "##"])), vec!["##", "##"]);
}

#[test]
fn tracing_follows_the_skeleton() {
    let l = line(&[
        "...........",
        "...........",
        "..#######..",
        "..#.....#..",
        "..#.....#..",
        "...........",
    ]);
    assert_eq!(
        trace(&l),
        vec![vec![
            (2, 4),
            (2, 3),
            (2, 2),
            (3, 2),
            (4, 2),
            (5, 2),
            (6, 2),
            (7, 2),
            (8, 2),
            (8, 3),
            (8, 4)
        ]]
    );
}

#[test]
fn tracing_goes_from_left_to_right() {
    let l = line(&[
        "#.......", "#....###", "#...#...", "...#....", ".......#", "..#.....", "##.....#", "#.......",
    ]);
    assert_eq!(
        trace(&l),
        vec![
            vec![(0, 0), (0, 1), (0, 2)],
            vec![(2, 5), (1, 6), (0, 6), (0, 7)],
            vec![(7, 1), (6, 1), (5, 1), (4, 2), (3, 3)],
        ]
    );
}

#[test]
fn strokes_with_the_same_edge_stay_in_order() {
    let l = line(&["###...", "......", "###...", "......", "..####"]);
    assert_eq!(
        trace(&l),
        vec![
            vec![(0, 0), (1, 0), (2, 0)],
            vec![(0, 2), (1, 2), (2, 2)],
            vec![(2, 4), (3, 4), (4, 4), (5, 4)],
        ]
    );
}

#[test]
fn loops_are_traced_without_a_tip() {
    let l = line(&["......", ".####.", ".#..#.", ".####.", "......"]);
    let strokes = trace(&l);
    assert_eq!(
        strokes,
        vec![vec![
            (1, 1),
            (2, 1),
            (3, 1),
            (4, 1),
            (4, 2),
            (3, 3),
            (2, 3),
            (1, 2),
            (1, 3)
        ]]
    );
    // Every point touches the next, and none comes twice.
    for pair in strokes[0].windows(2) {
        assert!((pair[0].0 - pair[1].0).abs() <= 1 && (pair[0].1 - pair[1].1).abs() <= 1);
        assert_ne!(pair[0], pair[1]);
    }
    let mut seen = strokes[0].clone();
    seen.sort();
    seen.dedup();
    assert_eq!(seen.len(), strokes[0].len());
}

#[test]
fn short_walks_make_no_stroke() {
    assert!(trace(&line(&["##..", "...#"])).is_empty());
    assert!(trace(&Line { width: 0, height: 5, mask: vec![] }).is_empty());
    assert!(trace(&line(&["...."])).is_empty());
}

#[test]
fn words_wrap_to_lines_that_fit() {
    let fits = |s: &str| s.chars().count() <= 9;
    assert_eq!(wrap("the ink appears  slowly", fits), vec!["the ink", "appears", "slowly"]);
    assert_eq!(wrap("one\n\ntwo three\r\nfour", fits), vec!["one", "two three", "four"]);
    // A word that does not fit has a line of its own.
    assert_eq!(
        wrap("a Chamberofsecrets b", fits),
        vec!["a", "Chamberofsecrets", "b"]
    );
    assert!(wrap("  \n ", fits).is_empty());
}

#[test]
fn wrapping_breaks_between_characters_that_are_not_ascii() {
    let fits = |s: &str| s.chars().count() <= 4;
    let lines = wrap_stack("这是一个没有空格的中文句子", fits);
    assert_eq!(lines, vec!["这是一个", "没有空格", "的中文句", "子"]);
    assert!(lines.iter().all(|l| fits(l)));
    assert_eq!(lines.concat(), "这是一个没有空格的中文句子");
    assert_eq!(wrap_stack("Tom, 你好。 yes", fits), vec!["Tom,", "你好。", "yes"]);
    assert_eq!(wrap_stack("Chamber of", fits), vec!["Chamber", "of"]);
    assert!(wrap_stack(" \n\t", fits).is_empty());
}

#[test]
fn spaces_run_together_between_pieces() {
    let fits = |s: &str| s.chars().count() <= 20;
    assert_eq!(wrap_stack("  a \t b  ", fits), vec!["a b"]);
    assert_eq!(wrap_stack("a\u{3000}b", fits), vec!["a b"]);
}

#[test]
fn pieces_are_words_spaces_and_characters() {
    assert_eq!(wrap_tokens("Tom, 你好 x"), vec!["Tom,", " ", "你", "好", " ", "x"]);
    assert_eq!(wrap_tokens(" a"), vec![" ", "a"]);
    assert!(wrap_tokens("").is_empty());
}

#[test]
fn fallback_fonts_are_used_where_the_first_has_no_glyph() {
    let latin = font_bytes(&[('a', 3), ('b', 4)]);
    let cjk = font_bytes(&[('你', 7), ('a', 9)]);
    let primary = FontRef::try_from_slice(&latin).unwrap();
    let fallback = FontRef::try_from_slice(&cjk).unwrap();
    let alone = FontStack::single(primary.clone());
    assert_eq!(alone.len(), 1);
    assert_eq!(alone.glyph_for('a'), Some((0, 3)));
    assert_eq!(alone.glyph_for('你'), None);
    let fonts = FontStack::with_fallbacks(primary, vec![fallback]);
    assert_eq!(fonts.len(), 2);
    assert_eq!(fonts.glyph_for('a'), Some((0, 3)));
    assert_eq!(fonts.glyph_for('你'), Some((1, 7)));
    assert_eq!(fonts.glyph_for('z'), None);
}

#[test]
fn kerning_stays_between_neighbours_of_a_font() {
    let latin = font_bytes(&[('a', 3), ('b', 4)]);
    let cjk = font_bytes(&[('你', 7), ('好', 8)]);
    let fonts = FontStack::with_fallbacks(
        FontRef::try_from_slice(&latin).unwrap(),
        vec![FontRef::try_from_slice(&cjk).unwrap()],
    );
    let placed = |font, glyph, kern_from| Placed { font, glyph, kern_from };
    assert_eq!(
        fonts.glyph_run("ab你好z好a"),
        vec![
            placed(0, 3, None),
            placed(0, 4, Some(3)),
            placed(1, 7, None),
            placed(1, 8, Some(7)),
            placed(1, 8, None),
            placed(0, 3, None),
        ]
    );
}

#[test]
fn a_sheet_has_a_margin_and_takes_ink() {
    let mut l = Line::blank(6, 2);
    assert_eq!((l.width, l.height, l.mask.len()), (10, 6, 60));
    assert!(l.mask.iter().all(|&v| !v));
    l.ink(9, 5);
    l.ink(0, 0);
    l.ink(-1, 3);
    l.ink(10, 0);
    l.ink(0, 6);
    let inked: Vec<usize> = (0..60).filter(|&i| l.mask[i]).collect();
    assert_eq!(inked, vec![0, 59]);
}
