use midnight_run_tools::blobs::{components, outlines, sort_by_column, sort_by_corner, Component};
use midnight_run_tools::tools::automation_attack::color::{is_orange, is_white, ColorAnalyzer};
use midnight_run_tools::tools::automation_attack::extract::{rects_overlap, TextImage};
use midnight_run_tools::tools::automation_attack::glyphs::{
    current_glyph_index, find_letters, Glyph, glyph_similarity, likely_prompt_image, make_pgm, normalize_glyph, prompt_score,
    segment_glyphs, suffix_from, text_image_hash, text_image_source_size, TEMPLATE_LEN,
};
use midnight_run_tools::tools::automation_attack::keys::{
    missing_lines, missing_wait, resolve_tesseract, scan_inputs, search_rect_from_game, typed_letters, unmapped_error,
    usual_path, virtual_key, Typing, TypingStage,
};
use midnight_run_tools::tools::automation_attack::log::{header, log_row, LogEntry};
use midnight_run_tools::tools::automation_attack::ocr::{parse_integer, parse_makebox};
use midnight_run_tools::tools::automation_attack::session::{choose_prompt, with_hash, PromptAction, Session};
use midnight_run_tools::tools::automation_attack::templates::{FastResult, TemplateDb};
use midnight_run_tools::tools::automation_attack::Args;
use midnight_run_tools::platform::input::WaitAction;
use midnight_run_tools::platform::win32::Rect;

const ORANGE: [u8; 4] = [60, 160, 200, 0];
const WHITE: [u8; 4] = [220, 220, 220, 0];

fn units(v: f32) -> u128 {
    (v as f64 * 4503599627370496.0) as u128
}

fn next(seed: &mut u64) -> u64 {
    *seed = seed.wrapping_mul(6364136223846793005).wrapping_add(1442695040888963407);
    *seed >> 33
}

/// Letters drawn in a grid of 5 by 7 cells.
fn pattern(ch: char) -> [&'static str; 7] {
    match ch {
        'A' => ["01110", "11011", "11011", "11111", "11011", "11011", "11011"],
        'C' => ["01111", "11100", "11000", "11000", "11000", "11100", "01111"],
        'E' => ["11111", "11000", "11000", "11110", "11000", "11000", "11111"],
        'L' => ["11000", "11000", "11000", "11000", "11000", "11000", "11111"],
        'T' => ["11111", "11111", "00100", "00100", "00100", "00100", "00100"],
        _ => panic!("no picture of this letter"),
    }
}

/// A frame that shows `word` with letters of 10 by 28 pixels, six apart; letter `current` is orange.
fn frame_with(word: &str, current: usize, w: usize, h: usize, x: usize, y: usize) -> Vec<u8> {
    let mut f = vec![0u8; w * h * 4];
    for (n, ch) in word.chars().enumerate() {
        let color = if n == current { ORANGE } else { WHITE };
        for (r, row) in pattern(ch).iter().enumerate() {
            for (c, cell) in row.chars().enumerate() {
                if cell == '1' {
                    for dy in 0..4 {
                        for dx in 0..4 {
                            let px = x + n * 26 + c * 4 + dx;
                            let py = y + r * 4 + dy;
                            let i = (py * w + px) * 4;
                            f[i..i + 4].copy_from_slice(&color);
                        }
                    }
                }
            }
        }
    }
    f
}

fn images_of(word: &str, current: usize) -> Vec<TextImage> {
    let (w, h) = (260, 90);
    let mut a = ColorAnalyzer::new(w, h);
    a.analyze(&frame_with(word, current, w, h, 20, 30));
    a.extract_text_images()
}

fn picture(word: &str, current: usize) -> TextImage {
    let mut all = images_of(word, current);
    assert_eq!(all.len(), 1);
    all.remove(0)
}

#[test]
fn prompt_colours() {
    assert!(is_orange(200, 160, 60));
    assert!(!is_orange(144, 160, 60));
    assert!(!is_orange(200, 104, 60));
    assert!(!is_orange(200, 129, 60));
    assert!(!is_orange(160, 186, 60));
    assert!(is_orange(160, 185, 60));
    assert!(is_white(140, 172, 150));
    assert!(!is_white(140, 173, 150));
    assert!(!is_white(139, 139, 139));
}

#[test]
fn counting_and_hashing_colours() {
    let mut a = ColorAnalyzer::new(3, 1);
    let mut f = Vec::new();
    f.extend_from_slice(&ORANGE);
    f.extend_from_slice(&WHITE);
    f.extend_from_slice(&[0, 0, 0, 0]);
    let hash = a.analyze(&f);
    let mut want = 0xcbf29ce484222325_u64;
    for bit in [1u64, 1, 0] {
        want = (want ^ bit).wrapping_mul(0x100000001b3);
    }
    assert_eq!(hash, want);
    assert_eq!((a.orange_count, a.white_count), (1, 1));
    assert_eq!((a.orange, a.combined), (vec![1, 0, 0], vec![1, 1, 0]));
}

#[test]
fn regions_join_at_corners_or_not() {
    let mask = [1, 0, 0, 1, 0, 1, 0, 0, 0, 0, 0, 1];
    let c = components(&mask, 4, 3, 1);
    assert_eq!(
        c,
        vec![
            Component { x0: 0, y0: 0, x1: 1, y1: 1, area: 2 },
            Component { x0: 3, y0: 0, x1: 3, y1: 0, area: 1 },
            Component { x0: 3, y0: 2, x1: 3, y1: 2, area: 1 },
        ]
    );
    assert_eq!(outlines(&mask, 4, 3, false).len(), 4);
    assert_eq!(components(&mask, 4, 3, 2).len(), 1);
    assert_eq!((c[0].width(), c[0].height()), (2, 2));
}

#[test]
fn regions_agree_with_a_plain_walk() {
    let mut seed = 3u64;
    for round in 0..40 {
        let (w, h) = (1 + (round * 7) % 23, 1 + (round * 5) % 17);
        let mask: Vec<u8> = (0..w * h).map(|_| u8::from(next(&mut seed) % 5 < 2)).collect();
        for diagonal in [false, true] {
            let mut seen = vec![false; w * h];
            let mut want = Vec::new();
            for start in 0..w * h {
                if mask[start] == 0 || seen[start] {
                    continue;
                }
                let mut todo = vec![start];
                seen[start] = true;
                let mut c = Component { x0: w, y0: h, x1: 0, y1: 0, area: 0 };
                while let Some(p) = todo.pop() {
                    let (x, y) = (p % w, p / w);
                    c.area += 1;
                    c.x0 = c.x0.min(x);
                    c.x1 = c.x1.max(x);
                    c.y0 = c.y0.min(y);
                    c.y1 = c.y1.max(y);
                    for q in 0..w * h {
                        let (dx, dy) = ((q % w).abs_diff(x), (q / w).abs_diff(y));
                        let near = dx <= 1 && dy <= 1 && (diagonal || dx + dy <= 1);
                        if near && mask[q] != 0 && !seen[q] {
                            seen[q] = true;
                            todo.push(q);
                        }
                    }
                }
                want.push(c);
            }
            assert_eq!(outlines(&mask, w, h, diagonal), want);
        }
    }
}

#[test]
fn regions_sort_stably() {
    let c = |x0: usize, y0: usize, area: usize| Component { x0, y0, x1: x0, y1: y0, area };
    let all = vec![c(5, 1, 1), c(2, 9, 2), c(5, 0, 3), c(2, 3, 4)];
    let areas = |v: Vec<Component>| v.iter().map(|c| c.area).collect::<Vec<_>>();
    assert_eq!(areas(sort_by_column(&all)), vec![2, 4, 1, 3]);
    assert_eq!(areas(sort_by_corner(&all)), vec![3, 1, 4, 2]);
}

#[test]
fn overlapping_rectangles() {
    assert!(rects_overlap((0, 0, 4, 4), (4, 4, 9, 9)));
    assert!(!rects_overlap((0, 0, 4, 4), (5, 0, 9, 4)));
    assert!(!rects_overlap((0, 0, 4, 4), (0, 5, 4, 9)));
}

#[test]
fn one_picture_for_each_line() {
    let image = picture("LATE", 1);
    assert_eq!(image.source_bounds, (17, 27, 20 + 3 * 26 + 19 + 3, 60));
    assert_eq!(image.width, (image.source_bounds.2 - 17 + 1) * 4 + 32);
    assert_eq!(image.height, 34 * 4 + 32);
    assert_eq!(image.pixels.len(), image.width * image.height);
    assert_eq!(image.pixels[0], 255);
    let ink = |x: usize, y: usize| image.pixels[(16 + (y - 27) * 4) * image.width + 16 + (x - 17) * 4];
    assert_eq!(ink(20, 30), 0);
    assert_eq!(ink(32, 30), 255);
    let cx = (46 + 65) as f32 * 0.5;
    assert_eq!(image.current_center_x as f32, 16.0 + (cx - 17.0) * 4.0);
    assert!(images_of("LATE", 9).is_empty());
}

#[test]
fn letters_on_another_line_are_left_out() {
    let (w, h) = (260, 160);
    let mut f = frame_with("TELL", 0, w, h, 20, 20);
    let g = frame_with("CAT", 1, w, h, 40, 100);
    for (a, b) in f.iter_mut().zip(g) {
        *a = (*a).max(b);
    }
    let mut a = ColorAnalyzer::new(w, h);
    a.analyze(&f);
    let images = a.extract_text_images();
    assert_eq!(images.len(), 2);
    assert_eq!(segment_glyphs(&images[0]).len(), 4);
    assert_eq!(segment_glyphs(&images[1]).len(), 3);
    assert!(!rects_overlap(images[0].source_bounds, images[1].source_bounds));
}

#[test]
fn glyphs_keep_their_order_and_size() {
    let image = picture("LATE", 2);
    let found = segment_glyphs(&image);
    assert_eq!(found.len(), 4);
    assert_eq!(find_letters(&image).len(), 4);
    for pair in found.windows(2) {
        assert!(pair[0].x1 < pair[1].x0);
    }
    assert!(found.iter().all(|g| g.bits.len() == TEMPLATE_LEN && g.bits.iter().all(|&b| b <= 1)));
    assert_eq!(current_glyph_index(&image, &found), Some(2));
    assert_eq!(current_glyph_index(&image, &vec![]), None);
}

#[test]
fn normalizing_agrees_with_single_precision() {
    let mut seed = 17u64;
    for _ in 0..200 {
        let w = 1 + (next(&mut seed) % 90) as usize;
        let h = 1 + (next(&mut seed) % 120) as usize;
        let pixels: Vec<u8> = (0..w * h).map(|_| if next(&mut seed) % 2 == 0 { 0 } else { 255 }).collect();
        let x0 = (next(&mut seed) % w as u64) as usize;
        let y0 = (next(&mut seed) % h as u64) as usize;
        let x1 = x0 + (next(&mut seed) % (w - x0) as u64) as usize;
        let y1 = y0 + (next(&mut seed) % (h - y0) as u64) as usize;
        let image = TextImage { width: w, height: h, pixels, current_center_x: 0, source_bounds: (0, 0, 0, 0) };
        let got = normalize_glyph(&image, Component { x0, y0, x1, y1, area: 1 });
        let (sw, sh) = (x1 - x0 + 1, y1 - y0 + 1);
        let scale = (28.0f32 / sw as f32).min(36.0f32 / sh as f32);
        let dw = ((sw as f32 * scale).round() as usize).clamp(1, 28);
        let dh = ((sh as f32 * scale).round() as usize).clamp(1, 36);
        let (ox, oy) = ((32 - dw) / 2, (40 - dh) / 2);
        let mut want = vec![0u8; 32 * 40];
        for dy in 0..dh {
            let sy = y0 + (dy * sh / dh).min(sh - 1);
            for dx in 0..dw {
                let sx = x0 + (dx * sw / dw).min(sw - 1);
                if image.pixels[sy * w + sx] < 128 {
                    want[(oy + dy) * 32 + ox + dx] = 1;
                }
            }
        }
        assert_eq!(got, want);
    }
}

#[test]
fn similarity_is_shared_ink() {
    assert_eq!(glyph_similarity(&[1, 1, 0, 0], &[1, 0, 1, 0]), units(0.5));
    assert_eq!(glyph_similarity(&[1, 1, 0], &[1, 0, 0]), units(2.0 / 3.0));
    assert_eq!(glyph_similarity(&[0, 0], &[0, 0]), 0);
    assert_eq!(glyph_similarity(&[5, 7], &[1, 1]), units(1.0));
    assert_eq!(glyph_similarity(&[1, 1, 1], &[1]), units(1.0));
    let mut seed = 23u64;
    let a: Vec<u8> = (0..1280).map(|_| (next(&mut seed) % 2) as u8).collect();
    let b: Vec<u8> = (0..1280).map(|_| (next(&mut seed) % 3 / 2) as u8).collect();
    assert_eq!(glyph_similarity(&a, &b), glyph_similarity(&b, &a));
    assert_eq!(glyph_similarity(&a, &a), units(1.0));
}

#[test]
fn prompts_have_a_shape() {
    let image = |w: usize, h: usize| TextImage {
        width: 0,
        height: 0,
        pixels: vec![],
        current_center_x: 0,
        source_bounds: (5, 7, 5 + w - 1, 7 + h - 1),
    };
    assert_eq!(text_image_source_size(&image(30, 20)), (30, 20));
    assert!(likely_prompt_image(&image(24, 16)));
    assert!(!likely_prompt_image(&image(23, 16)));
    assert!(!likely_prompt_image(&image(90, 15)));
    assert!(likely_prompt_image(&image(150, 100)));
    assert!(!likely_prompt_image(&image(999, 101)));
    assert_eq!(prompt_score(&image(30, 20)), 600);
    let huge = TextImage { source_bounds: (0, 0, usize::MAX - 1, 1), ..image(1, 1) };
    assert_eq!(prompt_score(&huge), usize::MAX);
}

#[test]
fn hashes_and_files_of_pictures() {
    let image = TextImage { width: 2, height: 1, pixels: vec![127, 128], current_center_x: 0, source_bounds: (0, 0, 1, 0) };
    let mut want = 0xcbf29ce484222325_u64;
    for bit in [1u64, 0] {
        want = (want ^ bit).wrapping_mul(0x100000001b3);
    }
    assert_eq!(text_image_hash(&image), want);
    assert_eq!(make_pgm(&image), b"P5\n2 1\n255\n\x7f\x80".to_vec());
}

#[test]
fn suffixes() {
    assert_eq!(suffix_from("LATE", 1), "ATE");
    assert_eq!(suffix_from("LATE", 0), "LATE");
    assert_eq!(suffix_from("LATE", 4), "");
    assert_eq!(suffix_from("LATE", 9), "");
}

fn blob(records: &[(u8, Vec<u8>)], count: u32) -> Vec<u8> {
    let mut out = b"TPR1".to_vec();
    out.extend_from_slice(&count.to_le_bytes());
    for (ch, bits) in records {
        out.push(*ch);
        out.extend_from_slice(bits);
    }
    out
}

fn stripes(n: usize) -> Vec<u8> {
    (0..TEMPLATE_LEN).map(|i| u8::from(i % n == 0)).collect()
}

#[test]
fn template_files() {
    let records = vec![(b'C', stripes(2)), (b'A', stripes(3)), (b'C', stripes(2)), (b'c', stripes(5)), (b'C', stripes(7))];
    let db = TemplateDb::new(&blob(&records, 5));
    let letters: Vec<char> = db.items.iter().map(|t| t.ch).collect();
    assert_eq!(letters, vec!['C', 'A', 'C']);
    assert_eq!(db.known_letters(), "AC");
    assert_eq!(TemplateDb::new(&blob(&records, 1)).items.len(), 1);
    let mut cut = blob(&records, 5);
    cut.truncate(8 + 1281 + 1280);
    assert_eq!(TemplateDb::new(&cut).items.len(), 1);
    let mut wrong = blob(&records, 5);
    wrong[3] = b'2';
    assert!(TemplateDb::new(&wrong).items.is_empty());
    assert!(TemplateDb::new(b"TPR1").items.is_empty());
    let mut twice = db;
    twice.load_blob(&blob(&records, 5));
    assert_eq!(twice.items.len(), 3);
    assert_eq!(TemplateDb::new(&[]).known_letters(), "");
}

#[test]
fn words_are_learned_and_read() {
    let mut db = TemplateDb::new(&[]);
    let image = picture("LATE", 0);
    assert!(db.recognize(&image).is_none());
    assert_eq!(db.train_word(&image, "LAT"), 0);
    assert_eq!(db.train_word(&image, "l-a t1e"), 4);
    assert_eq!(db.train_word(&image, "LATE"), 0);
    assert_eq!(db.known_letters(), "AELT");
    let r = db.recognize(&picture("TALE", 2)).unwrap();
    assert_eq!((r.word.as_str(), r.current_index), ("TALE", 2));
    assert_eq!(r.min_similarity, units(1.0));
    let mut other = TemplateDb::new(&[]);
    assert_eq!(other.train_word(&picture("TTT", 0), "TTT"), 1);
    assert!(other.recognize(&picture("LLL", 0)).is_none());
}

#[test]
fn a_letter_has_at_most_eight_templates() {
    let records: Vec<(u8, Vec<u8>)> = (2..12).map(|n| (b'L', stripes(n))).collect();
    let mut db = TemplateDb::new(&blob(&records[..7], 7));
    let image = picture("LLL", 0);
    assert_eq!(db.train_word(&image, "LLL"), 1);
    assert_eq!(db.items.len(), 8);
    let mut db = TemplateDb::new(&blob(&records, 10));
    assert_eq!(db.train_word(&image, "LLL"), 0);
    assert_eq!(db.items.len(), 10);
}

#[test]
fn two_like_letters_are_not_told_apart() {
    let image = picture("LLL", 0);
    let mut db = TemplateDb::new(&[]);
    db.train_word(&image, "LLL");
    let bits = db.items[0].bits.clone();
    let mut noisy = bits.clone();
    for b in noisy.iter_mut().take(260) {
        *b = 1 - *b;
    }
    let s = glyph_similarity(&bits, &noisy);
    let db = TemplateDb::new(&blob(&[(b'L', noisy.clone()), (b'I', noisy)], 2));
    assert!(s < units(0.88));
    assert!(db.recognize(&image).is_none());
}

#[test]
fn box_lines_become_a_word() {
    let text = "b 40 1 50 9 0\nA 12 1 20 9 0\r\n\n? 1 2 3 4\nc 40 x 60\nd 7 1\ne x 1 2\nf 5 1 y\n";
    assert_eq!(parse_makebox(text), "ABC");
    assert_eq!(parse_makebox("z -3 0 1\ny 2 0 1\nx -3 0 1"), "ZXY");
    assert_eq!(parse_makebox(""), "");
    assert_eq!(parse_makebox("\u{a0}q\u{2003}1 2\t3"), "Q");
}

#[test]
fn integers_as_the_standard_parser_has_them() {
    let cases = [
        "0", "7", "+7", "-7", "-0", "+", "-", "", "007", "2147483647", "2147483648", "-2147483648", "-2147483649", "1 ",
        "99999999999999999999", "000000000000000000000012", "1a", "--1", "+-1", "\u{0661}",
    ];
    for c in cases {
        let chars: Vec<char> = c.chars().collect();
        assert_eq!(parse_integer(&chars), c.parse::<i32>().ok(), "{c}");
    }
}

#[test]
fn keys_for_letters() {
    assert_eq!(typed_letters("a-Z 9\u{e9}b"), vec!['a', 'Z', 'b']);
    assert_eq!(virtual_key('a'), 65);
    assert_eq!(virtual_key('Z'), 90);
    assert!(scan_inputs(0).is_none());
    let (d, u) = scan_inputs(0x1e).unwrap();
    assert_eq!((d.ki.w_vk, d.ki.w_scan, d.ki.dw_flags), (0, 0x1e, 8));
    assert_eq!((u.ki.w_scan, u.ki.dw_flags), (0x1e, 8 | 2));
    assert_eq!(unmapped_error('q'), "cannot map key q to scan code");
    let r = Rect { left: 1, top: 2, width: 3, height: 4 };
    assert_eq!(search_rect_from_game(r), r);
}

#[test]
fn finding_the_reading_program() {
    let usual = "C:\\Program Files\\Tesseract-OCR\\tesseract.exe";
    assert_eq!(resolve_tesseract(None, true, false).unwrap(), usual);
    assert_eq!(usual_path(), usual);
    assert_eq!(resolve_tesseract(None, false, true).unwrap(), "tesseract");
    assert!(resolve_tesseract(None, false, false).unwrap_err().starts_with("Tesseract not found. Install"));
    assert_eq!(resolve_tesseract(Some((String::from("x"), true)), false, false).unwrap(), "x");
    assert_eq!(resolve_tesseract(Some((String::from("tesseract"), false)), false, false).unwrap(), "tesseract");
    assert_eq!(resolve_tesseract(Some((String::from("x"), false)), true, true).unwrap_err(), "Tesseract not found: x");
}

#[test]
fn the_largest_prompt_is_chosen() {
    let a = picture("CAT", 0);
    let b = picture("LATE", 0);
    let c = picture("TALE", 1);
    let odd = TextImage { width: 1, height: 1, pixels: vec![255], current_center_x: 0, source_bounds: (0, 0, 99, 19) };
    assert_eq!(choose_prompt(&vec![]), (0, None));
    assert_eq!(choose_prompt(&vec![odd]), (0, None));
    let images = vec![a, b, c];
    assert_eq!(choose_prompt(&images), (3, Some(2)));
}

fn read(s: &mut Session, hash: u64, word: &str, index: usize) -> PromptAction {
    let fast = FastResult { word: String::from(word), current_index: index, min_similarity: 0 };
    s.read(hash, &fast, "98.7", 42, true)
}

#[test]
fn a_prompt_is_typed_once() {
    let mut s = Session::new();
    match read(&mut s, 5, "LATE", 1) {
        PromptAction::Type(t) => assert_eq!(t, "ATE"),
        _ => panic!("it is typed"),
    }
    assert_eq!(s.status, "FAST: LATE | CURRENT=A | TYPE=ATE | score=98.7% | 42 us");
    s.typed(5);
    assert!(matches!(read(&mut s, 5, "LATE", 1), PromptAction::Nothing));
    assert!(matches!(read(&mut s, 6, "LATE", 1), PromptAction::Type(_)));
    assert!(matches!(read(&mut s, 6, "LATE", 4), PromptAction::Nothing));
    assert!(s.status.contains("CURRENT=? | TYPE= |"));
    s.no_prompt();
    s.no_prompt();
    assert!(matches!(read(&mut s, 5, "LATE", 1), PromptAction::Nothing));
    for _ in 0..3 {
        s.no_prompt();
    }
    assert_eq!((s.typed_hash, s.asked_hash, s.status.as_str()), (None, None, ""));
    assert!(matches!(read(&mut s, 5, "LATE", 1), PromptAction::Type(_)));
    let fast = FastResult { word: String::from("LATE"), current_index: 0, min_similarity: 0 };
    assert!(matches!(s.read(9, &fast, "1.0", 1, false), PromptAction::Nothing));
}

#[test]
fn help_is_asked_for_once() {
    let mut s = Session::new();
    assert!(matches!(s.unread(0xabc, true), PromptAction::AskForHelp));
    s.queued(0xabc);
    assert_eq!(s.status, "OCR queued: hash=0000000000000abc");
    assert!(matches!(s.unread(0xabc, true), PromptAction::Nothing));
    assert!(matches!(s.unread(0xabd, true), PromptAction::AskForHelp));
    assert!(matches!(s.unread(0xabc, false), PromptAction::Nothing));
    assert_eq!(s.status, "install Tesseract OCR to learn missing word: 0000000000000abc");
    s.unavailable();
    assert_eq!(s.status, "OCR worker stopped");
    s.read_nothing("3.0", false);
    assert_eq!(s.status, "OCR worker stopped");
    s.read_nothing("3.0", true);
    assert_eq!(s.status, "OCR: nothing recognized (3.0 ms)");
    s.help_failed("gone");
    assert_eq!(s.status, "OCR error: gone");
    assert_eq!(with_hash("#", u64::MAX), "#ffffffffffffffff");
}

#[test]
fn help_is_learned_and_typed() {
    let mut s = Session::new();
    let mut db = TemplateDb::new(&[]);
    let image = picture("LATE", 1);
    match s.helped(&mut db, &image, "LATE", 7, Some(7), "12.5", true) {
        PromptAction::Type(t) => assert_eq!(t, "ATE"),
        _ => panic!("it is typed"),
    }
    assert_eq!(s.status, "OCR: LATE CURRENT=A TYPE=ATE 12.5ms learned +4");
    assert_eq!(db.items.len(), 4);
    assert!(matches!(s.helped(&mut db, &image, "LATE", 7, Some(8), "1.0", true), PromptAction::Nothing));
    assert!(matches!(s.helped(&mut db, &image, "LATE", 7, None, "1.0", true), PromptAction::Nothing));
    s.typed(7);
    assert!(matches!(s.helped(&mut db, &image, "LATE", 7, Some(7), "1.0", true), PromptAction::Nothing));
    assert_eq!(
        s.overlay_lines(Some(7), 1, 2, &db),
        vec!["prompt: hash=0000000000000007", "candidates: 1/2", "templates: AELT", "OCR: LATE CURRENT=A TYPE=ATE 1.0ms learned +0"]
    );
    assert_eq!(Session::new().overlay_lines(None, 0, 0, &db)[0], "prompt: none");
    assert_eq!(Session::new().overlay_lines(None, 0, 0, &db)[3], "status: scanning");
}

#[test]
fn default_settings() {
    let a = Args::default();
    assert_eq!((a.log_file.as_str(), a.debug, a.type_words, a.key_delay_ms), ("automation_attack_debug.tsv", false, true, 2));
}

#[test]
fn typing_letter_by_letter() {
    let mut t = Typing::new("a-B");
    assert_eq!(t.wanted(), Some(65));
    let (d, u) = t.scanned(0x1e).unwrap();
    assert_eq!((d.ki.w_scan, d.ki.dw_flags, u.ki.w_scan, u.ki.dw_flags), (0x1e, 8, 0x1e, 10));
    assert_eq!(t.wanted(), None);
    assert!(t.sent(2));
    assert_eq!(t.wanted(), Some(66));
    assert!(t.scanned(0x30).is_ok());
    assert!(t.sent(2));
    assert_eq!(t.wanted(), None);
    assert_eq!((t.done, t.stage), (2, TypingStage::Looking));
}

#[test]
fn typing_stops_at_a_failure() {
    let mut t = Typing::new("xyz");
    assert!(t.scanned(1).is_ok());
    assert!(t.sent(2));
    assert_eq!(t.scanned(0).unwrap_err(), "cannot map key y to scan code");
    assert_eq!(t.wanted(), None);
    assert_eq!((t.done, t.stage), (1, TypingStage::Stopped));
    let mut t = Typing::new("xyz");
    assert!(t.scanned(1).is_ok());
    assert!(!t.sent(1));
    assert_eq!(t.wanted(), None);
    assert_eq!((t.done, t.stage), (0, TypingStage::Stopped));
}

#[test]
fn missing_program_is_shown_for_ten_seconds() {
    assert_eq!(
        missing_lines(),
        vec!["Tesseract OCR not installed", "Install Tesseract OCR to use this tool", "quitting in 10s or Ctrl+Shift+Q"]
    );
    assert_eq!(missing_wait(0, false), WaitAction::Sleep { nanos: 100_000_000 });
    assert_eq!(missing_wait(9_999_999_999, false), WaitAction::Sleep { nanos: 100_000_000 });
    assert_eq!(missing_wait(10_000_000_000, false), WaitAction::Done { stopped: false });
    assert_eq!(missing_wait(5, true), WaitAction::Done { stopped: true });
}

#[test]
fn prompt_log_rows() {
    let head = header();
    assert!(head.starts_with("frame\ttime\torange\twhite\tlikely_candidates\traw_candidates\thash\t"));
    let mut e = LogEntry {
        frame: 7,
        time: String::from("0.233333"),
        orange: 120,
        white: 900,
        prompts: 1,
        candidates: 3,
        hash: Some(0xab),
        templates: String::from("ACT"),
        typed: String::from("CAT"),
        status: String::from("OCR error: a\tb"),
        loop_ms: String::from("12.34"),
        fps: String::from("81.04"),
    };
    let row = log_row(&e);
    assert_eq!(row, "7\t0.233333\t120\t900\t1\t3\t00000000000000ab\tACT\tCAT\tOCR error: a b\t12.34\t81.04");
    assert_eq!(row.split('\t').count(), head.split('\t').count());
    e.hash = None;
    assert_eq!(log_row(&e).split('\t').nth(6), Some("-"));
}

#[test]
fn loading_twice_adds_nothing() {
    let mut blob = vec![b'T', b'P', b'R', b'1', 2, 0, 0, 0];
    for letter in [b'A', b'B'] {
        blob.push(letter);
        blob.extend(std::iter::repeat(1u8).take(TEMPLATE_LEN));
    }
    let mut db = TemplateDb::new(&blob);
    assert_eq!(db.items.len(), 2);
    db.load_blob(&blob);
    assert_eq!(db.items.len(), 2);
}

#[test]
fn far_letters_are_rounded() {
    let image = TextImage { width: 1, height: 1, pixels: vec![255], current_center_x: 0, source_bounds: (0, 0, 0, 0) };
    let at = |x0: usize| Glyph { x0, x1: x0 + 4, bits: vec![] };
    assert_eq!(16_777_217 as f32, 16_777_216 as f32);
    assert_eq!(current_glyph_index(&image, &vec![at(16_777_217), at(16_777_216)]), Some(0));
    assert_eq!(current_glyph_index(&image, &vec![at(16_777_219), at(16_777_216)]), Some(1));
}
