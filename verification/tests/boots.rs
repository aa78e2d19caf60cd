use midnight_run_tools::platform::input::{key_event, HeldKey};
use midnight_run_tools::platform::overlay::OverlayPrimitive;
use midnight_run_tools::platform::win32::{Rect, VK_A, VK_D, VK_SPACE};
use midnight_run_tools::tools::boot_breaker::args::{parse_png_size, Args};
use midnight_run_tools::tools::boot_breaker::cart::{
    choose_cart_candidate, find_cart_candidates, share_of, CartCandidate, CartChoice, Expectation,
};
use midnight_run_tools::tools::boot_breaker::color::{bgra_to_gray, boot_color, hsv_like, red_color};
use midnight_run_tools::tools::boot_breaker::control::{
    run_boot_throw_startup, steer_to, Action, ControlReason, Controller, RescuePlan, Sight, Startup, ThrowStep,
};
use midnight_run_tools::tools::boot_breaker::debug::{
    frame_path, keeps_frame, live_debug_primitives, paint_debug_frame, rgb, Heading, Scene,
};
use midnight_run_tools::tools::boot_breaker::log::{control_line, header, log_row, settle_reject, status_line, LogEntry, TrackCells};
use midnight_run_tools::tools::boot_breaker::motion::{
    base_search_roi, boot_search_rois, detect_boot_motion, intersect, roi_around, BootSize, Detection, LastSeen, Roi,
    SearchArea, SearchWidth, Source,
};
use midnight_run_tools::tools::boot_breaker::paint::{
    draw_cross, draw_hline, draw_rect, draw_vector, draw_vline, set_pixel, write_bmp,
};
use midnight_run_tools::tools::boot_breaker::track::{
    accept_boot_detection, boot_settled_on_cart, follow_boot, judge, search_boot, update_cart, BootTrack, CartTrack, Frames,
    Verdict,
};

fn secs(v: f64) -> u128 {
    (v * 2f64.powi(82)) as u128
}

fn units(v: f32) -> u128 {
    (v as f64 * 4503599627370496.0) as u128
}

fn next(seed: &mut u64) -> u64 {
    *seed = seed.wrapping_mul(6364136223846793005).wrapping_add(1442695040888963407);
    *seed >> 33
}

fn put(frame: &mut [u8], w: i32, x: i32, y: i32, bgr: [u8; 3]) {
    let i = ((y * w + x) * 4) as usize;
    frame[i..i + 3].copy_from_slice(&bgr);
}

#[test]
fn settings() {
    let a = Args::default();
    assert_eq!(a.search_top, units(0.15));
    assert_eq!(a.search_margin, units(0.04));
    assert_eq!(a.cart_detection_y, units(0.85));
    assert_eq!(a.deadzone, units(18.0));
    assert_eq!(a.boot_size_max_scale, units(1.45));
    assert_eq!((a.lost_keep_frames, a.roi_padding, a.lost_roi_grow), (12, 28, 14));
    assert_eq!((a.rescue_space_delay, a.rescue_space_interval), (secs(2.0), secs(0.35)));
    assert_eq!((a.rescue_space_cooldown, a.rescue_space_taps, a.no_rescue_space), (secs(3.0), 2, false));
    assert_eq!((a.log_file.as_str(), a.template.as_str()), ("boot_breaker_debug.tsv", "boot_flying_template.png"));
}

#[test]
fn png_sizes() {
    let mut h = vec![137, 80, 78, 71, 13, 10, 26, 10, 0, 0, 0, 13, b'I', b'H', b'D', b'R'];
    h.extend_from_slice(&88i32.to_be_bytes());
    h.extend_from_slice(&(-2i32).to_be_bytes());
    assert_eq!(parse_png_size(&h), Some(BootSize { w: 88, h: -2 }));
    assert_eq!(parse_png_size(&h[..23]), None);
    let mut bad = h.clone();
    bad[7] = 11;
    assert_eq!(parse_png_size(&bad), None);
    let mut bad = h;
    bad[15] = b'X';
    assert_eq!(parse_png_size(&bad), None);
}

#[test]
fn hues() {
    assert_eq!(hsv_like(255, 0, 0), (0, 255, 255));
    assert_eq!(hsv_like(0, 255, 0), (60, 255, 255));
    assert_eq!(hsv_like(0, 0, 255), (120, 255, 255));
    assert_eq!(hsv_like(0, 0, 0), (0, 0, 0));
    assert_eq!(hsv_like(200, 100, 120), (174, 127, 200));
    assert_eq!(hsv_like(120, 80, 40), (15, 170, 120));
    let mut seed = 5u64;
    for _ in 0..5000 {
        let (r, g, b) = (next(&mut seed) as u8, next(&mut seed) as u8, next(&mut seed) as u8);
        let (h, s, v) = hsv_like(r, g, b);
        assert!((0..180).contains(&h) && (0..=255).contains(&s) && v == r.max(g).max(b) as i32);
    }
}

#[test]
fn boot_and_cart_colours() {
    let mut f = vec![0u8; 4 * 4];
    put(&mut f, 4, 0, 0, [40, 80, 120]);
    put(&mut f, 4, 1, 0, [40, 40, 200]);
    put(&mut f, 4, 2, 0, [250, 250, 250]);
    assert_eq!([0, 1, 2, 3].map(|x| boot_color(&f, 4, x, 0)), [true, false, false, false]);
    assert_eq!([0, 1, 2, 3].map(|x| red_color(&f, 4, x, 0)), [true, true, false, false]);
}

#[test]
fn brightness() {
    let mut f = vec![0u8; 3 * 4];
    put(&mut f, 3, 1, 0, [255, 255, 255]);
    put(&mut f, 3, 2, 0, [10, 20, 30]);
    let mut out = vec![9; 40];
    bgra_to_gray(&f, 3, 1, &mut out);
    assert_eq!(out, vec![0, 255, ((77 * 30 + 150 * 20 + 29 * 10) >> 8) as u8]);
    bgra_to_gray(&[], 0, 5, &mut out);
    assert!(out.is_empty());
}

#[test]
fn shares_of_lengths() {
    for len in 0..4000 {
        assert_eq!(share_of(len, units(0.85)), (len as f32 * 0.85) as i32);
        assert_eq!(share_of(len, units(0.08)), (len as f32 * 0.08) as i32);
        assert_eq!(share_of(len, units(0.85)), len * 85 / 100);
    }
}

fn cart_frame(w: i32, h: i32, runs: &[(i32, i32, i32)]) -> Vec<u8> {
    let mut f = vec![0u8; (w * h * 4) as usize];
    for &(from, to, rows) in runs {
        for x in from..to {
            for y in 0..rows {
                put(&mut f, w, x, h * 85 / 100 + y, [40, 40, 200]);
            }
        }
    }
    f
}

#[test]
fn carts_are_runs_of_red_columns() {
    let (w, h) = (400, 300);
    let f = cart_frame(w, h, &[(50, 90, 4), (120, 140, 4), (150, 250, 3), (255, 300, 2)]);
    let found = find_cart_candidates(&f, w, h, units(0.85));
    assert_eq!(
        found,
        vec![CartCandidate { x: 70, y: 255, score: 160 }, CartCandidate { x: 200, y: 255, score: 300 }]
    );
    let f = cart_frame(w, h, &[(0, 60, 4), (340, 400, 4)]);
    let found = find_cart_candidates(&f, w, h, units(0.85));
    assert!(found.is_empty());
    let f = cart_frame(w, h, &[(100, 236, 3)]);
    assert_eq!(find_cart_candidates(&f, w, h, units(0.85)).len(), 1);
    let f = cart_frame(w, h, &[(100, 237, 3)]);
    assert!(find_cart_candidates(&f, w, h, units(0.85)).is_empty());
    assert!(find_cart_candidates(&[], 0, 0, units(0.85)).is_empty());
}

#[test]
fn cart_band_agrees_with_single_precision() {
    for h in [97, 300, 413, 1080] {
        let w = 100;
        let (y0, y1) = ((h as f32 * (0.85f32 - 0.06)) as i32, (h as f32 * (0.85f32 + 0.06)) as i32);
        for (from, inside) in [(y0, true), (y0 - 3, false), (y1 - 3, true), (y1, false)] {
            let mut f = vec![0u8; (w * h * 4) as usize];
            for x in 40..60 {
                for y in from..from + 3 {
                    put(&mut f, w, x, y, [40, 40, 200]);
                }
            }
            assert_eq!(!find_cart_candidates(&f, w, h, units(0.85)).is_empty(), inside, "{h} {from}");
        }
    }
}

#[test]
fn the_cart_is_chosen() {
    let c = |x: i32, score: i32| CartCandidate { x, y: 9, score };
    assert_eq!(choose_cart_candidate(&vec![], None), None);
    assert_eq!(choose_cart_candidate(&vec![c(1, 5), c(2, 7), c(3, 7), c(4, 6)], None), Some((3, 9)));
    let e = Expectation { x: units(100.0), reach: units(90.0) };
    assert_eq!(choose_cart_candidate(&vec![c(9, 500), c(191, 500)], Some(e)), None);
    assert_eq!(choose_cart_candidate(&vec![c(10, 0), c(190, 0)], Some(e)), Some((10, 9)));
    assert_eq!(choose_cart_candidate(&vec![c(98, 0), c(103, 333)], Some(e)), Some((98, 9)));
    assert_eq!(choose_cart_candidate(&vec![c(98, 0), c(103, 334)], Some(e)), Some((103, 9)));
}

#[test]
fn cart_costs_agree_with_single_precision() {
    let mut seed = 29u64;
    for _ in 0..300 {
        let predicted = (next(&mut seed) % 100_000) as f32 / 97.0;
        let jump = 90.0 + (next(&mut seed) % 130) as f32;
        let cs: Vec<CartCandidate> = (0..6)
            .map(|_| CartCandidate { x: (next(&mut seed) % 1100) as i32, y: 1, score: (next(&mut seed) % 4000) as i32 })
            .collect();
        let want = cs
            .iter()
            .filter_map(|c| {
                let dx = (c.x as f32 - predicted).abs();
                (dx <= jump).then_some((c, dx - c.score as f32 * 0.003))
            })
            .min_by(|a, b| a.1.partial_cmp(&b.1).unwrap())
            .map(|(c, _)| (c.x, c.y));
        let e = Expectation { x: units(predicted), reach: units(jump) };
        assert_eq!(choose_cart_candidate(&cs, Some(e)), want);
    }
}

#[test]
fn cart_choices() {
    assert_eq!(CartChoice::of(0, false).name(), "no_red_candidates");
    assert_eq!(CartChoice::of(2, true).name(), "selected");
    assert_eq!(CartChoice::of(2, false).name(), "rejected_by_cart_gate");
}

fn roi(x: i32, y: i32, w: i32, h: i32) -> Roi {
    Roi { x, y, w, h }
}

#[test]
fn search_areas() {
    let area = SearchArea { margin: units(0.04), top: units(0.15), bottom: units(0.85) };
    for (w, h) in [(800, 600), (613, 417), (1, 1), (1920, 1080)] {
        let x0 = (w as f32 * 0.04) as i32;
        let x1 = (w as f32 * (1.0 - 0.04f32)) as i32;
        let y0 = (h as f32 * 0.15) as i32;
        let y1 = (h as f32 * 0.85) as i32;
        assert_eq!(base_search_roi(w, h, area), roi(x0, y0, (x1 - x0).max(1), (y1 - y0).max(1)));
    }
    assert_eq!(Args::default().search_area(), area);
}

#[test]
fn common_parts() {
    assert_eq!(intersect(roi(0, 0, 50, 50), roi(30, 40, 50, 50)), Some(roi(30, 40, 20, 10)));
    assert_eq!(intersect(roi(0, 0, 38, 50), roi(30, 0, 50, 50)), None);
    assert_eq!(intersect(roi(0, 0, 39, 50), roi(30, 0, 50, 50)), Some(roi(30, 0, 9, 50)));
    assert_eq!(intersect(roi(0, 0, i32::MAX, 9), roi(i32::MAX, 0, 9, 9)), None);
}

#[test]
fn squares_around_a_place() {
    let base = roi(32, 90, 736, 420);
    assert_eq!(roi_around(400, 300, 90, 800, 600, base), roi(310, 210, 180, 180));
    assert_eq!(roi_around(40, 100, 90, 800, 600, base), roi(32, 90, 98, 100));
    assert_eq!(roi_around(2000, 300, 90, 800, 600, base), base);
}

#[test]
fn searches_widen() {
    let base = roi(0, 0, 800, 600);
    let s = SearchWidth { half_diagonal: 72, padding: 28, lost_grow: 14 };
    let seen = |lost: i32, extra: i32| LastSeen { x: 400, y: 300, lost_frames: lost, speed_extra: extra };
    assert_eq!(boot_search_rois(seen(0, 0), 800, 600, base, s), vec![roi(300, 200, 200, 200)]);
    assert_eq!(boot_search_rois(seen(2, 5), 800, 600, base, s), vec![roi(267, 167, 266, 266)]);
    assert_eq!(boot_search_rois(seen(6, 900), 800, 600, base, s), vec![roi(120, 20, 560, 560)]);
    assert_eq!(boot_search_rois(seen(7, 0), 800, 600, base, s), vec![base]);
    let tiny = SearchWidth { half_diagonal: 1, padding: 0, lost_grow: 0 };
    assert_eq!(boot_search_rois(seen(0, 0), 800, 600, base, tiny), vec![roi(310, 210, 180, 180)]);
}

fn boot_scene(w: i32, h: i32, boots: &[Roi]) -> (Vec<u8>, Vec<u8>, Vec<u8>) {
    let mut f = vec![0u8; (w * h * 4) as usize];
    for b in boots {
        for y in b.y..b.y + b.h {
            for x in b.x..b.x + b.w {
                put(&mut f, w, x, y, [40, 80, 120]);
            }
        }
    }
    let mut gray = Vec::new();
    bgra_to_gray(&f, w, h, &mut gray);
    let prev = vec![0u8; gray.len()];
    (f, gray, prev)
}

fn score(count: i32, w: i32, h: i32) -> f32 {
    let aspect = w as f32 / h.max(1) as f32;
    let fill = count as f32 / (w * h).max(1) as f32;
    let size_score = (count as f32 / 260.0).min(1.0);
    let shape_score = 1.0 - ((aspect - 0.85).abs() / 2.2).min(1.0);
    0.40 * fill + 0.45 * size_score + 0.15 * shape_score
}

#[test]
fn boots_are_found_by_motion() {
    let (w, h) = (300, 200);
    let size = BootSize { w: 40, h: 40 };
    let all = roi(10, 10, 250, 150);
    let (f, gray, prev) = boot_scene(w, h, &[roi(20, 30, 12, 10), roi(100, 60, 20, 24), roi(200, 100, 9, 40)]);
    let d = detect_boot_motion(&f, &gray, Some(&prev), w, all, size, units(1.45), Source::FullInit).unwrap();
    assert_eq!((d.x, d.y, d.bbox), (109, 71, roi(100, 60, 20, 24)));
    assert_eq!(d.score, units(score(480, 20, 24)));
    assert_eq!(detect_boot_motion(&f, &gray, None, w, all, size, units(1.45), Source::FullInit), None);
    assert_eq!(detect_boot_motion(&f, &gray, Some(&prev), w, all, size, u128::MAX, Source::FullInit), Some(d));
    assert_eq!(detect_boot_motion(&f, &gray, Some(&gray), w, all, size, units(1.45), Source::FullInit), None);
    let none = BootSize { w: -1, h: 40 };
    assert_eq!(detect_boot_motion(&f, &gray, Some(&prev), w, all, none, units(1.45), Source::FullInit), None);
    let part = roi(0, 0, 60, 60);
    let d = detect_boot_motion(&f, &gray, Some(&prev), w, part, size, units(1.45), Source::LastKnown).unwrap();
    assert_eq!((d.x, d.y, d.source), (25, 34, Source::LastKnown));
}

#[test]
fn boot_scores_agree_with_single_precision() {
    for bw in 8..40 {
        for bh in 8..40 {
            let (f, gray, prev) = boot_scene(60, 60, &[roi(5, 5, bw, bh)]);
            let size = BootSize { w: 100, h: 100 };
            let d = detect_boot_motion(&f, &gray, Some(&prev), 60, roi(0, 0, 60, 60), size, units(1.45), Source::FullInit);
            let aspect = bw as f32 / bh as f32;
            if bw * bh >= 35 && (0.25..=3.2).contains(&aspect) {
                assert_eq!(d.unwrap().score, units(score(bw * bh, bw, bh)), "{bw} {bh}");
            } else {
                assert!(d.is_none());
            }
        }
    }
}

#[test]
fn boots_have_limits() {
    let find = |b: Roi, s: i32| {
        let (f, gray, prev) = boot_scene(120, 120, &[b]);
        let size = BootSize { w: s, h: s };
        detect_boot_motion(&f, &gray, Some(&prev), 120, roi(0, 0, 120, 120), size, units(1.45), Source::FullInit).is_some()
    };
    assert!(find(roi(5, 5, 29, 29), 20));
    assert!(!find(roi(5, 5, 30, 29), 20));
    assert!(!find(roi(5, 5, 7, 20), 40));
    assert!(!find(roi(5, 5, 32, 8), 40));
    assert!(find(roi(5, 5, 25, 8), 40));
}

#[test]
fn equal_boots_the_first_counts() {
    let (f, gray, prev) = boot_scene(200, 60, &[roi(100, 5, 20, 20), roi(10, 30, 20, 20)]);
    let size = BootSize { w: 40, h: 40 };
    let d = detect_boot_motion(&f, &gray, Some(&prev), 200, roi(0, 0, 200, 60), size, units(1.45), Source::FullInit);
    assert_eq!(d.unwrap().x, 109);
}

#[test]
fn searching_by_what_is_known() {
    let (w, h) = (300, 200);
    let (f, gray, prev) = boot_scene(w, h, &[roi(100, 60, 20, 24)]);
    let frames = Frames { frame: &f, gray: &gray, prev_gray: Some(&prev), width: w, height: h };
    let s = SearchWidth { half_diagonal: 30, padding: 28, lost_grow: 14 };
    let size = BootSize { w: 40, h: 40 };
    let base = roi(10, 10, 280, 180);
    let r = search_boot(&frames, None, base, s, size, units(1.45));
    assert_eq!((r.rois.clone(), r.source.name(), r.source.search()), (vec![base], "full-init-motion", "full-init"));
    assert_eq!(r.found.unwrap().x, 109);
    let seen = LastSeen { x: 110, y: 70, lost_frames: 0, speed_extra: 0 };
    let r = search_boot(&frames, Some(seen), base, s, size, units(1.45));
    assert_eq!((r.source.name(), r.source.search()), ("last-known-motion", "last-known-roi"));
    assert_eq!(r.rois, vec![roi(20, 10, 180, 150)]);
    assert!(r.found.is_some());
    let lost = LastSeen { lost_frames: 7, ..seen };
    let r = search_boot(&frames, Some(lost), base, s, size, units(1.45));
    assert_eq!((r.source.name(), r.source.search()), ("playfield-reacquire", "full-reacquire"));
}

fn det(x: i32, y: i32, score: f32, source: Source) -> Detection {
    Detection { x, y, score: units(score), bbox: roi(x - 5, y - 5, 10, 10), source }
}

fn track(lost: i32, seen: i32) -> BootTrack {
    BootTrack { x: 100, y: 100, lost_frames: lost, seen_frames: seen }
}

#[test]
fn boots_are_judged() {
    let at = units(0.85);
    assert_eq!(judge(None, None, 400, at, true), Verdict::Nothing);
    let weak = det(5, 5, 0.69, Source::Reacquire);
    assert_eq!(judge(Some(weak), None, 400, at, true), Verdict::WeakReacquire(weak));
    let fair = det(5, 5, 0.70, Source::Reacquire);
    assert_eq!(judge(Some(fair), None, 400, at, true), Verdict::Taken(fair));
    let low = det(5, 341, 0.5, Source::LastKnown);
    assert_eq!(judge(Some(low), None, 400, at, true), Verdict::BelowCart(low));
    let edge = det(5, 340, 0.5, Source::LastKnown);
    assert_eq!(judge(Some(edge), None, 400, at, true), Verdict::Taken(edge));
    let far = det(5, 5, 0.5, Source::LastKnown);
    assert_eq!(judge(Some(far), Some(track(0, 2)), 400, at, false), Verdict::TrackerGate(far));
    assert_eq!(judge(Some(far), Some(track(0, 2)), 400, at, true), Verdict::Taken(far));
    assert!(accept_boot_detection(Some(track(0, 1)), 0, false));
    assert!(accept_boot_detection(Some(track(7, 9)), 0, false));
    assert!(!accept_boot_detection(Some(track(6, 9)), units(0.8199), false));
    assert!(accept_boot_detection(Some(track(6, 9)), units(0.82), false));
}

#[test]
fn boots_are_followed() {
    let mut t = None;
    follow_boot(&mut t, Verdict::Nothing);
    assert_eq!(t, None);
    let d = det(7, 8, 0.5, Source::FullInit);
    follow_boot(&mut t, Verdict::Taken(d));
    assert_eq!(t, Some(BootTrack { x: 7, y: 8, lost_frames: 0, seen_frames: 1 }));
    follow_boot(&mut t, Verdict::TrackerGate(d));
    follow_boot(&mut t, Verdict::Nothing);
    assert_eq!(t, Some(BootTrack { x: 7, y: 8, lost_frames: 2, seen_frames: 1 }));
    follow_boot(&mut t, Verdict::Taken(det(9, 9, 0.5, Source::LastKnown)));
    assert_eq!(t, Some(BootTrack { x: 9, y: 9, lost_frames: 0, seen_frames: 2 }));
}

#[test]
fn carts_are_followed() {
    let at = units(0.85);
    let mut t = None;
    let c = update_cart(&mut t, None, 801, 600, at);
    assert_eq!(c, CartTrack { x: units(400.5), y: units(600.0 * 0.85), lost_frames: 1, seen_frames: 0 });
    let c = update_cart(&mut t, Some((300, 510)), 801, 600, at);
    assert_eq!(c, CartTrack { x: units(300.0), y: units(510.0), lost_frames: 0, seen_frames: 1 });
    let c = update_cart(&mut t, None, 801, 600, at);
    assert_eq!(c, CartTrack { x: units(300.0), y: units(510.0), lost_frames: 1, seen_frames: 1 });
    assert_eq!(t, Some(c));
    let mut t = None;
    assert_eq!(update_cart(&mut t, Some((1, 2)), 801, 600, at).seen_frames, 1);
}

#[test]
fn boots_settle_on_the_cart() {
    let cart = CartTrack { x: units(100.5), y: units(500.0), lost_frames: 0, seen_frames: 3 };
    let boot = |x: i32, y: i32| BootTrack { x, y, lost_frames: 0, seen_frames: 2 };
    assert!(boot_settled_on_cart(boot(100, 450), cart, true));
    assert!(!boot_settled_on_cart(boot(100, 450), cart, false));
    assert!(boot_settled_on_cart(boot(148, 450), cart, true));
    assert!(!boot_settled_on_cart(boot(149, 450), cart, true));
    assert!(boot_settled_on_cart(boot(53, 472), cart, true));
    assert!(!boot_settled_on_cart(boot(52, 472), cart, true));
    assert!(!boot_settled_on_cart(boot(100, 473), cart, true));
    assert!(boot_settled_on_cart(boot(100, 412), cart, true));
    assert!(!boot_settled_on_cart(boot(100, 411), cart, true));
    assert!(!boot_settled_on_cart(BootTrack { lost_frames: 3, ..boot(100, 450) }, cart, true));
    assert!(!boot_settled_on_cart(BootTrack { seen_frames: 1, ..boot(100, 450) }, cart, true));
}

#[test]
fn steering_has_zones() {
    let zone = units(18.0);
    let go = |from: HeldKey, off: i32| {
        let mut held = from;
        let s = steer_to(400 + off, units(400.0), 0, &mut held, zone);
        assert_eq!(s.error, off as i128 * 4503599627370496);
        (s.action, held)
    };
    assert_eq!(go(HeldKey::Neither, 18), (Action::Idle, HeldKey::Neither));
    assert_eq!(go(HeldKey::Neither, 19), (Action::Right, HeldKey::D));
    assert_eq!(go(HeldKey::Neither, -19), (Action::Left, HeldKey::A));
    assert_eq!(go(HeldKey::D, 10), (Action::Right, HeldKey::D));
    assert_eq!(go(HeldKey::D, 9), (Action::Idle, HeldKey::Neither));
    assert_eq!(go(HeldKey::D, -26), (Action::Idle, HeldKey::Neither));
    assert_eq!(go(HeldKey::D, -27), (Action::Left, HeldKey::A));
    assert_eq!(go(HeldKey::A, -10), (Action::Left, HeldKey::A));
    assert_eq!(go(HeldKey::A, 27), (Action::Right, HeldKey::D));
    let mut held = HeldKey::D;
    let s = steer_to(300, units(400.0), 0, &mut held, zone);
    assert_eq!(s.events, vec![key_event(VK_D, true), key_event(VK_A, false)]);
    let mut held = HeldKey::Neither;
    let s = steer_to(400, units(400.0), -(units(20.0) as i128), &mut held, zone);
    assert_eq!((s.action, s.error), (Action::Right, units(20.0) as i128));
    assert_eq!([Action::Idle, Action::Left, Action::Right, Action::Space].map(|a| a.letter()), ['-', 'A', 'D', 'S']);
}

fn sight(now_ms: u64) -> Sight {
    Sight {
        now: secs(std::time::Duration::from_millis(now_ms).as_secs_f64()),
        startup: Startup::Done,
        target: None,
        cart_seen: true,
        cart_x: units(400.0),
        lead: 0,
        on_cart: false,
    }
}

fn plan() -> RescuePlan {
    RescuePlan::of(&Args::default())
}

fn decide(c: &mut Controller, s: Sight) -> (Action, ControlReason, Option<ControlReason>) {
    let d = c.decide(&s, 12, units(18.0), &plan());
    assert_eq!(d.tap_space, d.action == Action::Space);
    (d.action, d.reason, d.notice)
}

#[test]
fn reasons_for_not_steering() {
    let mut c = Controller::new();
    assert_eq!(decide(&mut c, sight(0)), (Action::Idle, ControlReason::NeverSeen, None));
    c.boot = Some(track(0, 3));
    let running = Sight { startup: Startup::Running, target: Some(500), ..sight(1) };
    let r = ControlReason::StartupTracking;
    assert_eq!(decide(&mut c, running), (Action::Idle, r, Some(r)));
    let failed = Sight { startup: Startup::Failed, target: Some(500), ..sight(2) };
    let r = ControlReason::StartupFailed;
    assert_eq!(decide(&mut c, failed), (Action::Idle, r, Some(r)));
    assert_eq!(decide(&mut c, sight(3)).1, ControlReason::NoBoot);
    let no_cart = Sight { target: Some(500), cart_seen: false, ..sight(4) };
    assert_eq!(decide(&mut c, no_cart).1, ControlReason::NoCart);
    let go = Sight { target: Some(500), ..sight(5) };
    assert_eq!(decide(&mut c, go), (Action::Right, ControlReason::Steered, None));
    assert_eq!(c.held, HeldKey::D);
    c.boot = Some(track(13, 3));
    assert_eq!(decide(&mut c, go).1, ControlReason::BootLost(13));
    assert_eq!(c.held, HeldKey::Neither);
}

#[test]
fn names_of_reasons() {
    assert_eq!(ControlReason::BootLost(13).name(), "boot_lost=13");
    assert_eq!(ControlReason::Steered.name(), "steer_to_detected_boot");
    assert_eq!(ControlReason::NoBoot.name(), "no_current_boot_detection");
    assert_eq!(ControlReason::NoCart.name(), "no_current_cart_detection");
    assert_eq!(ControlReason::NeverSeen.name(), "boot_state_none");
    assert_eq!(ControlReason::StartupFailed.name(), "startup_failed");
    assert_eq!(ControlReason::StartupTracking.name(), "startup_tracking");
    assert_eq!(ControlReason::Thrown.name(), "boot_on_cart_relaunch");
    assert_eq!(ControlReason::Rescue.name(), "rescue_space");
}

#[test]
fn a_lost_boot_is_rescued() {
    let mut c = Controller::new();
    let running = Sight { startup: Startup::Running, ..sight(0) };
    decide(&mut c, running);
    assert_eq!(c.timers.missing_since, None);
    decide(&mut c, sight(100));
    assert_eq!(c.timers.next_rescue, Some(secs(0.1 + 2.0)));
    assert_eq!(decide(&mut c, sight(2099)).0, Action::Idle);
    let r = ControlReason::Rescue;
    assert_eq!(decide(&mut c, sight(2100)), (Action::Space, r, Some(r)));
    assert_eq!((c.timers.rescue_left, c.timers.next_rescue), (1, Some(secs(2.1 + 0.35))));
    assert_eq!(decide(&mut c, sight(2449)).0, Action::Idle);
    assert_eq!(decide(&mut c, sight(2450)).0, Action::Space);
    assert_eq!((c.timers.rescue_left, c.timers.next_rescue), (0, Some(secs(2.45 + 3.0))));
    assert_eq!(decide(&mut c, sight(5449)).0, Action::Idle);
    assert_eq!(decide(&mut c, sight(5450)).0, Action::Space);
    assert_eq!(c.timers.rescue_left, 1);
    c.boot = Some(track(0, 1));
    decide(&mut c, sight(5500));
    assert_eq!((c.timers.missing_since, c.timers.rescue_left, c.timers.next_rescue), (None, 0, None));
}

#[test]
fn rescues_can_be_off() {
    for p in [RescuePlan { off: true, ..plan() }, RescuePlan { taps: 0, ..plan() }] {
        let mut c = Controller::new();
        c.decide(&sight(0), 12, units(18.0), &p);
        let d = c.decide(&sight(9000), 12, units(18.0), &p);
        assert_eq!(d.action, Action::Idle);
    }
    let fast = RescuePlan { interval: 0, cooldown: 0, ..plan() };
    let mut c = Controller::new();
    c.decide(&sight(0), 12, units(18.0), &fast);
    c.decide(&sight(2000), 12, units(18.0), &fast);
    assert_eq!(c.timers.next_rescue, Some(secs(2.0 + 0.05)));
    c.decide(&sight(2050), 12, units(18.0), &fast);
    assert_eq!(c.timers.next_rescue, Some(secs(2.05 + 0.05)));
}

#[test]
fn a_resting_boot_is_thrown() {
    let mut c = Controller::new();
    c.boot = Some(track(0, 5));
    let rest = |ms: u64| Sight { on_cart: true, target: Some(500), ..sight(ms) };
    assert_eq!(decide(&mut c, rest(1000)).0, Action::Right);
    assert_eq!(decide(&mut c, rest(1179)).0, Action::Right);
    assert!(1.18 - 1.0 < 0.18);
    assert_eq!(decide(&mut c, rest(1180)).0, Action::Right);
    let d = c.decide(&rest(1181), 12, units(18.0), &plan());
    assert_eq!((d.action, d.reason, d.notice), (Action::Space, ControlReason::Thrown, Some(ControlReason::Thrown)));
    assert_eq!(d.events, vec![key_event(VK_D, true)]);
    assert!(d.error.is_some());
    assert_eq!((c.boot, c.held, c.timers.next_relaunch), (None, HeldKey::Neither, secs(1.181 + 0.75)));
    c.boot = Some(track(0, 5));
    decide(&mut c, rest(1200));
    assert_eq!(decide(&mut c, rest(1930)).0, Action::Right);
    assert_eq!(decide(&mut c, rest(1931)).0, Action::Space);
    c.boot = Some(track(0, 5));
    decide(&mut c, rest(3000));
    decide(&mut c, Sight { target: Some(500), ..sight(3100) });
    assert_eq!(decide(&mut c, rest(3200)).0, Action::Right);
    assert_eq!(c.timers.on_cart_since, Some(secs(3.2)));
}

#[test]
fn the_first_throw() {
    let steps = run_boot_throw_startup();
    assert_eq!(steps.len(), 10);
    assert_eq!(steps[0], ThrowStep::Hold { vk: VK_D, millis: 600 });
    assert_eq!(steps[1], ThrowStep::Hold { vk: VK_SPACE, millis: 250 });
    assert_eq!(steps[2], ThrowStep::Pause { millis: 180 });
    assert_eq!(steps[5], ThrowStep::Hold { vk: VK_A, millis: 600 });
    assert_eq!(steps[9], ThrowStep::Pause { millis: 180 });
}

fn lit(image: &[u8], w: i32, h: i32) -> Vec<(i32, i32)> {
    let mut out = Vec::new();
    for y in 0..h {
        for x in 0..w {
            if image[((y * w + x) * 4 + 3) as usize] == 255 {
                out.push((x, y));
            }
        }
    }
    out
}

#[test]
fn pixels_and_lines() {
    let (w, h) = (6, 5);
    let blank = vec![0u8; (w * h * 4) as usize];
    let mut i = blank.clone();
    set_pixel(&mut i, w, h, 2, 1, [1, 2, 3]);
    assert_eq!(i[32..36], [3, 2, 1, 255]);
    set_pixel(&mut i, w, h, -1, 1, [1, 2, 3]);
    set_pixel(&mut i, w, h, 2, 5, [1, 2, 3]);
    assert_eq!(lit(&i, w, h), vec![(2, 1)]);
    let mut i = blank.clone();
    draw_hline(&mut i, w, h, 3, 4, -9, [9, 9, 9]);
    assert_eq!(lit(&i, w, h), vec![(0, 3), (1, 3), (2, 3), (3, 3), (4, 3)]);
    draw_hline(&mut i, w, h, 5, 0, 5, [9, 9, 9]);
    assert_eq!(lit(&i, w, h).len(), 5);
    let mut i = blank.clone();
    draw_vline(&mut i, w, h, 5, 99, 3, [9, 9, 9]);
    assert_eq!(lit(&i, w, h), vec![(5, 3), (5, 4)]);
    let mut i = blank.clone();
    draw_hline(&mut i, w, h, 0, 20, 30, [9, 9, 9]);
    assert_eq!(lit(&i, w, h), vec![(5, 0)]);
    let mut i = blank.clone();
    draw_cross(&mut i, w, h, 1, 1, 1, [9, 9, 9]);
    assert_eq!(lit(&i, w, h), vec![(1, 0), (0, 1), (1, 1), (2, 1), (1, 2)]);
    let mut i = blank;
    draw_rect(&mut i, w, h, roi(1, 1, 4, 3), [9, 9, 9]);
    assert_eq!(lit(&i, w, h).len(), 10);
    assert!(!lit(&i, w, h).contains(&(2, 2)));
}

#[test]
fn sloped_lines_agree_with_an_error_walk() {
    let (w, h) = (40, 40);
    for x0 in [0, 7, 20, -5] {
        for y0 in [3, 30, 44] {
            for x1 in [0, 13, 39, 60] {
                for y1 in [-10, 0, 22, 39] {
                    let mut image = vec![0u8; (w * h * 4) as usize];
                    draw_vector(&mut image, w, h, x0, y0, x1, y1, [9, 9, 9]);
                    let mut want = Vec::new();
                    let (dx, dy) = (i32::abs(x1 - x0), -i32::abs(y1 - y0));
                    let (sx, sy) = (if x0 < x1 { 1 } else { -1 }, if y0 < y1 { 1 } else { -1 });
                    let (mut x, mut y, mut err) = (x0, y0, dx + dy);
                    loop {
                        if (0..w).contains(&x) && (0..h).contains(&y) {
                            want.push((x, y));
                        }
                        if x == x1 && y == y1 {
                            break;
                        }
                        let e2 = err * 2;
                        if e2 >= dy {
                            err += dy;
                            x += sx;
                        }
                        if e2 <= dx {
                            err += dx;
                            y += sy;
                        }
                    }
                    want.sort_by_key(|p| (p.1, p.0));
                    assert_eq!(lit(&image, w, h), want);
                }
            }
        }
    }
}

#[test]
fn bitmap_files() {
    let image = vec![7u8; 2 * 3 * 4];
    let b = write_bmp(&image, 2, 3);
    assert_eq!(b.len(), 54 + 24);
    assert_eq!(&b[..2], b"BM");
    assert_eq!(b[2..6], 78u32.to_le_bytes());
    assert_eq!(b[10..14], 54u32.to_le_bytes());
    assert_eq!(b[14..18], 40u32.to_le_bytes());
    assert_eq!(b[18..22], 2i32.to_le_bytes());
    assert_eq!(b[22..26], (-3i32).to_le_bytes());
    assert_eq!(b[26..30], [1, 0, 32, 0]);
    assert_eq!(b[34..38], 24u32.to_le_bytes());
    assert_eq!(b[54..], image);
}

fn scene() -> Scene {
    Scene {
        width: 60,
        height: 50,
        base: roi(2, 7, 55, 35),
        searched: vec![roi(2, 7, 55, 35)],
        line_y: 42,
        boot_det: Some(det(30, 20, 0.5, Source::FullInit)),
        cart_det: Some((25, 42)),
        boot: Some(Heading { x: 30, y: 20, to_x: 40, to_y: 25 }),
        cart: Heading { x: 25, y: 42, to_x: 20, to_y: 42 },
        target: Some(30),
        action: Action::Right,
        rejected: true,
    }
}

#[test]
fn the_overlay_shows_the_scene() {
    let screen = Rect { left: 100, top: 200, width: 60, height: 50 };
    let items = live_debug_primitives(&scene(), screen);
    assert_eq!(items.len(), 15);
    assert_eq!(items[0], OverlayPrimitive::Rect { x: 100, y: 200, w: 60, h: 50, color: rgb(255, 255, 255) });
    assert_eq!(items[2], OverlayPrimitive::Rect { x: 102, y: 207, w: 55, h: 35, color: rgb(0, 180, 255) });
    assert_eq!(items[3], OverlayPrimitive::Line { x0: 100, y0: 242, x1: 159, y1: 242, color: rgb(255, 0, 0) });
    assert_eq!(items[6], OverlayPrimitive::Cross { x: 130, y: 220, radius: 16, color: rgb(0, 255, 0) });
    assert_eq!(items[8], OverlayPrimitive::Line { x0: 130, y0: 220, x1: 140, y1: 225, color: rgb(255, 255, 0) });
    assert_eq!(items[12], OverlayPrimitive::Line { x0: 130, y0: 200, x1: 130, y1: 249, color: rgb(255, 255, 0) });
    assert_eq!(items[13], OverlayPrimitive::Rect { x: 108, y: 208, w: 54, h: 34, color: rgb(80, 80, 255) });
    assert_eq!(items[14], OverlayPrimitive::Rect { x: 104, y: 204, w: 52, h: 42, color: rgb(255, 0, 0) });
    let calm = Scene { boot_det: None, cart_det: None, boot: None, target: None, rejected: false, searched: vec![], ..scene() };
    assert_eq!(live_debug_primitives(&calm, screen).len(), 7);
    assert_eq!(rgb(1, 2, 3), 0x030201);
}

#[test]
fn saved_frames_show_the_scene() {
    let frame = vec![0u8; 60 * 50 * 4];
    let s = scene();
    let image = paint_debug_frame(&frame, &s);
    let at = |x: usize, y: usize| {
        let i = (y * 60 + x) * 4;
        (image[i + 2], image[i + 1], image[i], image[i + 3])
    };
    assert_eq!(at(0, 0), (255, 255, 255, 255));
    assert_eq!(at(4, 4), (0, 0, 255, 255));
    assert_eq!(at(8, 8), (80, 80, 255, 255));
    assert_eq!(at(30, 3), (0, 255, 255, 255));
    assert_eq!(at(1, 1), (0, 0, 0, 0));
    assert_eq!(at(2, 30), (0, 180, 255, 255));
    assert_eq!(at(1, 42), (255, 0, 255, 255));
    assert_eq!(at(40, 25), (255, 255, 0, 255));
    assert!(keeps_frame(60) && !keeps_frame(61));
    assert_eq!(frame_path(7), "boot_breaker_debug_frames/frame_000007.bmp");
    assert_eq!(frame_path(1234567), "boot_breaker_debug_frames/frame_1234567.bmp");
}

fn cells(x: &str) -> TrackCells {
    TrackCells { x: format!("{x}x"), y: format!("{x}y"), vx: format!("{x}vx"), vy: format!("{x}vy"), lost_frames: 2 }
}

fn entry() -> LogEntry {
    let t = |s: &str| String::from(s);
    LogEntry {
        frame: 30,
        time: t("1.500000"),
        boot_det: Some(det(30, 20, 0.5, Source::LastKnown)),
        boot_score: t("0.500"),
        target: t("30.0"),
        boot: Some(cells("b")),
        cart_det: Some((25, 42)),
        cart: cells("c"),
        candidates: vec![CartCandidate { x: 1, y: 2, score: 3 }, CartCandidate { x: 4, y: 5, score: 6 }],
        choice: CartChoice::Selected,
        error: Some(t("5.0")),
        action: Action::Left,
        held: HeldKey::A,
        reason: ControlReason::Steered,
        reject_reason: t(""),
        search: Source::LastKnown,
        loop_ms: t("2.00"),
        fps: t("60.00"),
        boot_size: BootSize { w: 88, h: 112 },
        rois: vec![roi(1, 2, 30, 40), roi(5, 6, 7, 8)],
        grab_ms: t("g1"),
        gray_ms: t("g2"),
        cart_ms: t("c1"),
        boot_search_ms: t("b1"),
        intercept_ms: t("i1"),
        control_ms: t("c2"),
        log_ms: t("l1"),
    }
}

#[test]
fn frames_are_logged() {
    let want = "30\t1.500000\t30\t20\t0.500\tlast-known-motion\t25,15,10,10\tbx\tby\tbvx\tbvy\t2\t25\t42\tcx\tcy\tcvx\t2\t2\t1,2,3;4,5,6\tselected\t30.0\tboot_det\t5.0\tA\tA\tsteer_to_detected_boot\t\tlast-known-roi\t2.00\t60.00\t88\t112\t2\t1256\t1,2,30,40;5,6,7,8\tg1\tg2\tc1\tb1\ti1\tc2\tl1";
    assert_eq!(log_row(&entry()), want);
    let e = LogEntry { boot_det: None, boot: None, cart_det: None, error: None, candidates: vec![], ..entry() };
    let row = log_row(&e);
    assert!(row.starts_with("30\t1.500000\t\t\t\t\t\t\t\t\t\t\t\t\tcx"));
    assert!(row.contains("\tselected\t\tnone\t\tA"));
    assert_eq!(row.split('\t').count(), header().split('\t').count());
    assert!(header().starts_with("frame\ttime\tboot_det_x") && header().ends_with("control_ms\tlog_ms"));
}

#[test]
fn status_lines() {
    assert_eq!(
        control_line(Action::Right, HeldKey::D, ControlReason::Steered),
        "control: action=D key=D steer_to_detected_boot"
    );
    assert_eq!(
        control_line(Action::Idle, HeldKey::Neither, ControlReason::NeverSeen),
        "control: action=- key=None boot_state_none"
    );
    assert_eq!(status_line(""), "status: running");
    assert_eq!(status_line("tracker_gate"), "status: tracker_gate");
    assert_eq!(settle_reject("tracker_gate", Some(ControlReason::Rescue)), "tracker_gate");
    assert_eq!(settle_reject("", Some(ControlReason::Rescue)), "rescue_space");
    assert_eq!(settle_reject("tracker_gate", Some(ControlReason::Thrown)), "boot_on_cart_relaunch");
    assert_eq!(settle_reject("x", None), "x");
}

#[test]
fn search_area_lies_in_the_frame() {
    let area = Args::default().search_area();
    for (w, h) in [(1, 1), (2, 7), (640, 480), (1917, 1079), (16_777_215, 1)] {
        let r = base_search_roi(w, h, area);
        assert!(r.x >= 0 && r.y >= 0 && r.x + r.w <= w && r.y + r.h <= h);
    }
}

#[test]
fn wide_dead_zones() {
    let mut held = HeldKey::D;
    let s = steer_to(1000, 0, 0, &mut held, u128::MAX);
    assert_eq!((s.action, held), (Action::Idle, HeldKey::Neither));
    let mut held = HeldKey::Neither;
    let s = steer_to(1000, 0, 0, &mut held, units(999.0));
    assert_eq!((s.action, held), (Action::Right, HeldKey::D));
    let mut held = HeldKey::D;
    let s = steer_to(1000, 0, 0, &mut held, units(2000.0));
    assert_eq!((s.action, held), (Action::Idle, HeldKey::Neither));
}

#[test]
fn settling_is_measured_in_doubles() {
    for (since, now) in [(1100, 1280), (1000, 1180), (500, 680), (2000, 2180), (100, 281), (16, 196)] {
        let mut c = Controller::new();
        c.boot = Some(track(0, 5));
        let rest = |ms: u64| Sight { on_cart: true, target: Some(500), ..sight(ms) };
        decide(&mut c, rest(since));
        let thrown = decide(&mut c, rest(now)).1 == ControlReason::Thrown;
        assert_eq!(thrown, now as f64 / 1000.0 - since as f64 / 1000.0 >= 0.18 && now as f64 / 1000.0 >= 0.0);
    }
}

#[test]
fn long_frames_are_rounded() {
    let long = 16_777_219;
    assert_eq!(share_of(long, units(1.0)), (long as f32 * 1.0) as i32);
    assert_eq!(share_of(long, units(0.85)), (long as f32 * 0.85) as i32);
    assert_eq!(share_of(i32::MAX, units(1.0)), (i32::MAX as f32 * 1.0) as i32);
    let all = roi(0, 0, 20_000_000, 400);
    let r = roi_around(long, 200, 101, 20_000_000, 400, all);
    assert_eq!(r.x, (long as f32 - 101.0).round() as i32);
    let mut c = None;
    let t = update_cart(&mut c, Some((long, 3)), 20_000_000, 20, units(0.85));
    assert_eq!(t.x, units(long as f32));
    let f = vec![0u8; 17_000_000 * 4];
    assert_eq!(find_cart_candidates(&f, 17_000_000, 1, units(0.85)), vec![]);
    let mut held = HeldKey::Neither;
    assert_eq!(steer_to(long, 0, 0, &mut held, units(18.0)).error, units(long as f32) as i128);
}
