use midnight_run_tools::platform::win32::Rect;
use midnight_run_tools::tools::automation_attack::AutomationAttack;
use midnight_run_tools::tools::boot_breaker::BootBreaker;
use midnight_run_tools::tools::launcher::detect::{
    find_play_button_bottom_edge, EdgeSearch,
    boot_breaker_corner_pixel, detect_frame_rect, detect_play_button, gold_row_span, play_button_gold_pixel,
    standard_corner_pixel, ClickMethod, Detector, PlayClick,
};
use midnight_run_tools::tools::launcher::flow::{Launch, Look, Poll, Stage};
use midnight_run_tools::tools::launcher::geometry::{
    absolute_rect, format_rect, place_line, play_zone_shrink_ratios, relative_rect, shrink_rect, zone_note, LaunchProfile,
};
use midnight_run_tools::tools::launcher::log::{header, launch_log_path, LaunchEvent, LaunchLogger};
use midnight_run_tools::tools::Tool;

const GOLD: [u8; 3] = [80, 130, 180];
const DULL: [u8; 3] = [60, 70, 80];

fn blank(w: i32, h: i32) -> Vec<u8> {
    vec![0; (w * h * 4) as usize]
}

fn put(frame: &mut [u8], w: i32, x: i32, y: i32, bgr: [u8; 3]) {
    let i = ((y * w + x) * 4) as usize;
    frame[i..i + 3].copy_from_slice(&bgr);
}

fn fill(frame: &mut [u8], w: i32, x0: i32, x1: i32, y0: i32, y1: i32, bgr: [u8; 3]) {
    for y in y0..=y1 {
        for x in x0..=x1 {
            put(frame, w, x, y, bgr);
        }
    }
}

#[test]
fn corner_colours() {
    assert!(standard_corner_pixel(80, 70, 60));
    assert!(!standard_corner_pixel(54, 70, 50));
    assert!(!standard_corner_pixel(60, 70, 61));
    assert!(!standard_corner_pixel(190, 60, 50));
    assert!(boot_breaker_corner_pixel(115, 20, 90));
    assert!(boot_breaker_corner_pixel(70, 70, 44));
    assert!(!boot_breaker_corner_pixel(70, 70, 45));
    assert!(!boot_breaker_corner_pixel(114, 100, 0));
}

#[test]
fn frame_is_found_by_its_corners() {
    let (w, h) = (800, 600);
    let mut f = blank(w, h);
    assert_eq!(detect_frame_rect(&f, w, h, Detector::StandardFrame), None);
    fill(&mut f, w, 200, 209, 150, 155, DULL);
    fill(&mut f, w, 590, 599, 445, 450, DULL);
    let r = detect_frame_rect(&f, w, h, Detector::StandardFrame);
    assert_eq!(r, Some(Rect { left: 158, top: 126, width: 599 + 42 - 158, height: 450 + 36 - 126 }));
    assert_eq!(detect_frame_rect(&f, w, h, Detector::BootBreakerFrame), None);
}

#[test]
fn frame_needs_enough_pixels_and_size() {
    let (w, h) = (800, 600);
    let mut f = blank(w, h);
    fill(&mut f, w, 200, 318, 150, 150, DULL);
    assert_eq!(detect_frame_rect(&f, w, h, Detector::StandardFrame), None);
    put(&mut f, w, 500, 400, DULL);
    assert!(detect_frame_rect(&f, w, h, Detector::StandardFrame).is_some());
    let mut f = blank(w, h);
    fill(&mut f, w, 300, 319, 200, 219, DULL);
    assert_eq!(detect_frame_rect(&f, w, h, Detector::StandardFrame), None);
    let mut f = blank(w, h);
    fill(&mut f, w, 0, 79, 0, 599, DULL);
    assert_eq!(detect_frame_rect(&f, w, h, Detector::StandardFrame), None);
}

#[test]
fn frame_is_cut_to_the_screen() {
    let (w, h) = (400, 300);
    let mut f = blank(w, h);
    fill(&mut f, w, 40, 359, 25, 284, [0, 100, 200]);
    let r = detect_frame_rect(&f, w, h, Detector::BootBreakerFrame).unwrap();
    assert_eq!(r, Rect { left: 36, top: 21, width: 369 - 36, height: 299 - 21 });
    assert_eq!(detect_frame_rect(&[], 0, 0, Detector::StandardFrame), None);
}

#[test]
fn gold_spans() {
    assert!(play_button_gold_pixel(180, 130, 80));
    assert!(!play_button_gold_pixel(180, 190, 80));
    assert!(!play_button_gold_pixel(95, 70, 71));
    let (w, h) = (300, 20);
    let mut f = blank(w, h);
    for x in [40, 41, 90] {
        put(&mut f, w, x, 7, GOLD);
    }
    assert_eq!(gold_row_span(&f, w, 0, w - 1, 7), Some((40, 90, 3)));
    assert_eq!(gold_row_span(&f, w, 41, 89, 7), Some((41, 41, 1)));
    assert_eq!(gold_row_span(&f, w, 0, w - 1, 8), None);
    assert_eq!(gold_row_span(&f, w, 9, 8, 7), None);
}

fn button_scene(bottom: Option<i32>) -> (Vec<u8>, Rect) {
    let (w, h) = (800, 600);
    let mut f = blank(w, h);
    fill(&mut f, w, 320, 480, 490, 490, GOLD);
    if let Some(b) = bottom {
        fill(&mut f, w, 320, 480, b, b, GOLD);
    }
    (f, Rect { left: 0, top: 0, width: 800, height: 600 })
}

#[test]
fn play_is_clicked_in_the_middle_of_the_button() {
    let (f, r) = button_scene(Some(530));
    let c = detect_play_button(&f, 800, 600, r).unwrap();
    assert_eq!((c.x, c.y, c.method), (400, 510, ClickMethod::GoldFrame));
    let (f, r) = button_scene(None);
    let c = detect_play_button(&f, 800, 600, r).unwrap();
    assert_eq!((c.x, c.y), (400, 490 + 28));
    let (f, r) = button_scene(Some(500));
    assert_eq!(detect_play_button(&f, 800, 600, r).unwrap().y, 490 + 28);
}

#[test]
fn play_falls_back_to_its_usual_place() {
    let f = blank(800, 600);
    let r = Rect { left: 100, top: 50, width: 600, height: 500 };
    let c = detect_play_button(&f, 800, 600, r).unwrap();
    assert_eq!(c, PlayClick::local(400, 50 + 435, ClickMethod::Anchor));
    assert_eq!(c.method.name(), "play_anchor");
    let s = c.with_screen(Rect { left: -20, top: 7, width: 1, height: 1 });
    assert_eq!((s.x, s.y, s.screen_x, s.screen_y), (400, 485, 380, 492));
    let a = s.at_cursor(Rect { left: -20, top: 7, width: 1, height: 1 }, 381, 493);
    assert_eq!((a.x, a.y, a.screen_x, a.screen_y), (401, 486, 381, 493));
}

#[test]
fn rects_move_between_screen_and_capture() {
    let c = Rect { left: 100, top: -40, width: 9, height: 9 };
    let l = Rect { left: 3, top: 4, width: 5, height: 6 };
    let s = absolute_rect(c, l);
    assert_eq!(s, Rect { left: 103, top: -36, width: 5, height: 6 });
    assert_eq!(relative_rect(c, s), l);
    assert_eq!(format_rect(s), "103,-36,5,6");
    assert_eq!(place_line("rect: ", s), "rect: 103,-36 5x6");
}

fn shrunk(r: Rect, h: f32, v: f32) -> Rect {
    let dx = (r.width as f32 * h).round() as i32;
    let dy = (r.height as f32 * v).round() as i32;
    Rect { left: r.left + dx, top: r.top + dy, width: (r.width - dx * 2).max(1), height: (r.height - dy * 2).max(1) }
}

#[test]
fn play_zone_margins() {
    for profile in [LaunchProfile::Standard, LaunchProfile::BootBreaker] {
        let (h, v) = match profile {
            LaunchProfile::Standard => (0.10f32, 0.05f32),
            LaunchProfile::BootBreaker => (0.15f32, 0.0f32),
        };
        let (a, b) = play_zone_shrink_ratios(profile);
        for side in 0..3000 {
            let r = Rect { left: 11, top: -5, width: side, height: 3000 - side };
            assert_eq!(shrink_rect(r, a, b), shrunk(r, h, v));
        }
        let note = zone_note(profile, Rect { left: 1, top: 2, width: 3, height: 4 });
        let want = format!(
            "raw_rect=1,2,3,4 play_zone_shrink_horizontal_percent={} play_zone_shrink_vertical_percent={}",
            (h * 100.0).round() as i32,
            (v * 100.0).round() as i32
        );
        assert_eq!(note, want);
    }
    let r = Rect { left: 0, top: 0, width: 1, height: 1 };
    assert_eq!(shrink_rect(r, 2251799813685248, 0), Rect { left: 1, top: 0, width: 1, height: 1 });
}

#[test]
fn log_path_has_another_extension() {
    assert_eq!(launch_log_path("boot_breaker_debug.tsv"), "boot_breaker_debug.launch.tsv");
    assert_eq!(launch_log_path("plain"), "plain.launch.tsv");
    assert_eq!(launch_log_path("logs/a.b.tsv"), "logs/a.b.launch.tsv");
    assert_eq!(launch_log_path("a.d/.hidden"), "a.d/.hidden.launch.tsv");
    assert_eq!(launch_log_path("/x/..y"), "/x/..launch.tsv");
    assert_eq!(launch_log_path("dot."), "dot.launch.tsv");
    assert_eq!(launch_log_path("C:\\logs\\boot.tsv"), "C:\\logs\\boot.launch.tsv");
    assert_eq!(launch_log_path("C:\\a.d\\x.y.tsv"), "C:\\a.d\\x.y.launch.tsv");
    assert_eq!(launch_log_path("C:plain"), "C:plain.launch.tsv");
}

#[test]
fn log_rows_are_numbered() {
    let mut log = LaunchLogger::open("x.tsv");
    let e = LaunchEvent {
        phase: String::from("play"),
        event: String::from("click"),
        elapsed: String::from("0.125000"),
        detector: Some(Detector::BootBreakerFrame),
        capture_rect: Some(Rect { left: 10, top: 20, width: 800, height: 600 }),
        local_rect: Some(Rect { left: 1, top: 2, width: 3, height: 4 }),
        click: Some(PlayClick { x: 5, y: 6, screen_x: 15, screen_y: 26, method: ClickMethod::GoldFrame }),
        details: String::from("a\tb"),
    };
    assert_eq!(
        log.row(&e).unwrap(),
        "1\t0.125000\tplay\tclick\tboot_breaker_frame\t10,20,800,600\t1,2,3,4\t11,22,3,4\t5\t6\t15\t26\tplay_gold_frame\ta b"
    );
    let e = LaunchEvent { detector: None, capture_rect: None, click: None, ..e };
    let row = log.row(&e).unwrap();
    assert_eq!(row, "2\t0.125000\tplay\tclick\t\t\t1,2,3,4\t\t\t\t\t\t\ta b");
    assert_eq!(row.split('\t').count(), header().split('\t').count());
    assert!(header().starts_with("seq\ttime_s\tphase\tevent\tdetector\tcapture_rect"));
    let mut none = LaunchLogger::open("");
    assert!(none.row(&e).is_none());
    assert_eq!(none.seq, 0);
    assert_eq!(Detector::StandardFrame.name(), "standard_frame");
}

#[test]
fn launch_goes_through_its_stages() {
    let capture = Rect { left: 30, top: 40, width: 800, height: 600 };
    let mut l = Launch::new(LaunchProfile::BootBreaker, capture);
    assert_eq!(l.poll(0, false), Poll::Look);
    let dark = blank(800, 600);
    assert_eq!(l.look(&dark), Look::Nothing { pause: 120 });
    let mut f = blank(800, 600);
    fill(&mut f, 800, 200, 209, 150, 155, DULL);
    fill(&mut f, 800, 590, 599, 445, 450, DULL);
    let local = Rect { left: 158, top: 126, width: 483, height: 360 };
    let screen = Rect { left: 188, top: 166, width: 483, height: 360 };
    assert_eq!(l.look(&f), Look::Found { local, screen });
    assert_eq!(l.stage, Stage::Play);
    assert_eq!(l.local_frame(), local);
    match l.look(&dark) {
        Look::Click { click } => {
            assert_eq!((click.x, click.y), (158 + 241, 126 + 313));
            assert_eq!((click.screen_x, click.screen_y), (188 + 241, 166 + 313));
        }
        _ => panic!("PLAY has a place"),
    }
    assert_eq!(l.stage, Stage::Play);
    l.clicked();
    assert_eq!(l.detector(), Detector::BootBreakerFrame);
    assert_eq!(l.look(&f), Look::Nothing { pause: 120 });
    let mut g = blank(800, 600);
    fill(&mut g, 800, 200, 599, 150, 449, [0, 100, 200]);
    assert!(matches!(l.look(&g), Look::Found { .. }));
    assert_eq!(l.stage, Stage::Ready);
    let zone = l.gameplay_rect();
    assert_eq!(zone, shrunk(l.found, 0.15, 0.0));
    assert!(zone.left > l.found.left && zone.left + zone.width < l.found.left + l.found.width);
}

#[test]
fn launch_ends_in_time() {
    let capture = Rect { left: 0, top: 0, width: 800, height: 600 };
    let mut l = Launch::new(LaunchProfile::Standard, capture);
    assert_eq!(l.poll(7_999_999_999, true), Poll::Stopped);
    assert_eq!(l.stage, Stage::Ended);
    let mut l = Launch::new(LaunchProfile::Standard, capture);
    assert_eq!(l.poll(8_000_000_000, true), Poll::Timeout);
    let mut l = Launch { stage: Stage::Play, ..Launch::new(LaunchProfile::Standard, capture) };
    assert_eq!(l.poll(4_999_999_999, false), Poll::Look);
    assert_eq!(l.poll(5_000_000_000, false), Poll::Timeout);
    let l = Launch { stage: Stage::Zone, ..Launch::new(LaunchProfile::Standard, capture) };
    assert_eq!(l.detector(), Detector::StandardFrame);
}

#[test]
fn tools_have_names() {
    assert_eq!(AutomationAttack::default().name(), "automation_attack");
    assert_eq!(BootBreaker.name(), "boot_breaker");
}

#[test]
fn edges_of_nothing() {
    let e = EdgeSearch { x0: 0, x1: 3, center: 1, span: 3, slack: 2 };
    let f = vec![0u8; 4 * 4 * 20];
    assert_eq!(find_play_button_bottom_edge(&f, 4, 0, -5, e), None);
    assert_eq!(find_play_button_bottom_edge(&f, 4, 0, 19, EdgeSearch { span: -7, ..e }), None);
    assert_eq!(find_play_button_bottom_edge(&[], 0, 0, 19, EdgeSearch { x0: 1, x1: 0, ..e }), None);
}
