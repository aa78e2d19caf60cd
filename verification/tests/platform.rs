use midnight_run_tools::platform::input::{
    at_target, click_error, hold_key, key_event, release_keys, tap_space, wait_or_stop, ClickAction, ClickAttempt, HeldKey,
    KeyStep, WaitAction,
};
use midnight_run_tools::platform::overlay::{
    cpu_line, default_bounds, draw_primitive, encode, filetime_to_u64, line_place, marker_box, paint_size, react, wide,
    ClickMarker, CpuMeter, CpuTimes, FileTime, OverlayPrimitive, OverlayState, Segment, WindowAction,
};
use midnight_run_tools::platform::win32::{
    capture_info, make_bitmap_info, make_input, screen_rect, window_rect, Input, Point, Rect, WinRect, KEYEVENTF_KEYUP, VK_A,
    VK_D, VK_SPACE,
};

fn down(vk: u16) -> Input {
    key_event(vk, false)
}

fn up(vk: u16) -> Input {
    key_event(vk, true)
}

#[test]
fn key_events() {
    let a = key_event(VK_A, false);
    assert_eq!((a.kind, a.ki.w_vk, a.ki.w_scan, a.ki.dw_flags, a.ki.time), (1, 0x41, 0, 0, 0));
    assert_eq!(key_event(VK_A, true).ki.dw_flags, KEYEVENTF_KEYUP);
    assert_eq!(make_input(7, 8, 9).ki.dw_flags, 9);
}

#[test]
fn holding_and_releasing() {
    let mut held = HeldKey::Neither;
    assert_eq!(hold_key(&mut held, HeldKey::A), vec![down(VK_A)]);
    assert_eq!(held, HeldKey::A);
    assert!(hold_key(&mut held, HeldKey::A).is_empty());
    assert_eq!(hold_key(&mut held, HeldKey::D), vec![up(VK_A), down(VK_D)]);
    assert_eq!(hold_key(&mut held, HeldKey::Neither), vec![up(VK_D)]);
    assert_eq!(held, HeldKey::Neither);
    assert!(release_keys(&mut held, false).is_empty());
    assert_eq!(release_keys(&mut held, true), vec![up(VK_A), up(VK_D)]);
    held = HeldKey::D;
    assert_eq!(release_keys(&mut held, true), vec![up(VK_D)]);
    assert_eq!(held, HeldKey::Neither);
}

#[test]
fn keyboard_follows_held_key() {
    let keys = [HeldKey::Neither, HeldKey::A, HeldKey::D];
    for from in keys {
        for to in keys {
            let mut pressed: Vec<u16> = match from {
                HeldKey::A => vec![VK_A],
                HeldKey::D => vec![VK_D],
                HeldKey::Neither => vec![],
            };
            let mut held = from;
            for e in hold_key(&mut held, to) {
                if e.ki.dw_flags == KEYEVENTF_KEYUP {
                    pressed.retain(|&k| k != e.ki.w_vk);
                } else {
                    pressed.push(e.ki.w_vk);
                }
            }
            let want: Vec<u16> = match to {
                HeldKey::A => vec![VK_A],
                HeldKey::D => vec![VK_D],
                HeldKey::Neither => vec![],
            };
            assert_eq!(pressed, want);
        }
    }
}

#[test]
fn names_of_keys() {
    assert_eq!(HeldKey::Neither.name(), "None");
    assert_eq!(HeldKey::A.name(), "A");
    assert_eq!(HeldKey::D.name(), "D");
}

#[test]
fn tapping_space() {
    assert_eq!(
        tap_space(),
        vec![KeyStep::Send(down(VK_SPACE)), KeyStep::Wait { millis: 70 }, KeyStep::Send(up(VK_SPACE))]
    );
}

#[test]
fn clicking_takes_three_moves() {
    let mut c = ClickAttempt::new(100, 50);
    assert_eq!(c.moved(Point { x: 103, y: 50 }), ClickAction::Move);
    assert_eq!(c.moved(Point { x: 0, y: 0 }), ClickAction::Move);
    assert_eq!(c.moved(Point { x: 100, y: 47 }), ClickAction::GiveUp);
    let mut c = ClickAttempt::new(100, 50);
    assert_eq!(c.moved(Point { x: 98, y: 52 }), ClickAction::Press);
    assert!(at_target(Point { x: i32::MIN, y: 0 }, Point { x: i32::MIN, y: 2 }));
    assert!(!at_target(Point { x: i32::MIN, y: 0 }, Point { x: i32::MAX, y: 0 }));
    assert_eq!(
        click_error(Point { x: 1, y: -2 }, Point { x: 30, y: 4 }),
        "cursor did not move to click target: target=1,-2 actual=30,4"
    );
}

#[test]
fn waiting_in_slices() {
    assert_eq!(wait_or_stop(0, 100_000_000, false), WaitAction::Sleep { nanos: 20_000_000 });
    assert_eq!(wait_or_stop(95_000_000, 100_000_000, false), WaitAction::Sleep { nanos: 5_000_000 });
    assert_eq!(wait_or_stop(100_000_000, 100_000_000, false), WaitAction::Done { stopped: false });
    assert_eq!(wait_or_stop(5, 100_000_000, true), WaitAction::Done { stopped: true });
}

#[test]
fn bitmaps() {
    let info = capture_info(640, 480);
    let h = info.bmi_header;
    assert_eq!((h.bi_size, h.bi_width, h.bi_height, h.bi_planes, h.bi_bit_count), (40, 640, -480, 1, 32));
    assert_eq!(h.bi_size_image, 640 * 480 * 4);
    assert_eq!(info.bmi_colors, [0]);
    assert_eq!(make_bitmap_info(100, 10).bmi_header.bi_size_image, 4000);
    assert_eq!(make_bitmap_info(i32::MAX, i32::MAX).bmi_header.bi_size_image, u32::MAX);
    assert_eq!(make_bitmap_info(40_000, 40_000).bmi_header.bi_size_image, u32::MAX);
}

#[test]
fn windows_and_screens() {
    let r = WinRect { left: -8, top: 10, right: 792, bottom: 610 };
    assert_eq!(window_rect(r), Some(Rect { left: -8, top: 10, width: 800, height: 600 }));
    assert_eq!(window_rect(WinRect { left: 5, top: 0, right: 5, bottom: 9 }), None);
    assert_eq!(window_rect(WinRect { left: 0, top: 9, right: 5, bottom: 0 }), None);
    assert_eq!(screen_rect(1920, 1080), Rect { left: 0, top: 0, width: 1920, height: 1080 });
    assert_eq!(screen_rect(0, -3), Rect { left: 0, top: 0, width: 1, height: 1 });
}

#[test]
fn overlay_keeps_four_lines() {
    let mut s = OverlayState::new("Boot Breaker");
    s.set_lines((0..6).map(|i| format!("line {i}")).collect());
    assert_eq!(s.lines, vec!["line 0", "line 1", "line 2", "line 3"]);
    s.set_lines(vec![String::from("only")]);
    assert_eq!(s.lines, vec!["only"]);
    s.set_title("Other");
    assert_eq!(s.title, "Other");
}

#[test]
fn telemetry_shows_every_tool_line() {
    let mut s = OverlayState::new("Tool");
    assert_eq!(s.telemetry_lines("0.0"), vec!["Tool", "Script FPS: -", "CPU: 0.0%", "Press Ctrl + Shift + Q to exit"]);
    s.set_target_fps(String::from("60.0"));
    assert_eq!(s.telemetry_lines("1.5")[1], "Script FPS: - / 60.0");
    s.update(String::from("58.2"), String::from("60.0"), (0..4).map(|i| format!("l{i}")).collect());
    assert_eq!(
        s.telemetry_lines("12.3"),
        vec!["Tool", "Script FPS: 58.2 / 60.0", "CPU: 12.3%", "Press Ctrl + Shift + Q to exit", "l0", "l1", "l2", "l3"]
    );
    s.target_fps = None;
    assert_eq!(s.telemetry_lines("1.0")[1], "Script FPS: 58.2");
    assert_eq!(cpu_line("7.0"), "CPU: 7.0%");
}

#[test]
fn markers_keep_the_last_64() {
    let mut s = OverlayState::new("t");
    for i in 0..70 {
        s.mark_click(i, -i);
    }
    assert_eq!(s.click_markers.len(), 64);
    assert_eq!(s.click_markers[0], ClickMarker { x: 6, y: -6 });
    assert_eq!(s.click_markers[63], ClickMarker { x: 69, y: -69 });
}

fn seg(x0: i64, y0: i64, x1: i64, y1: i64, color: u32) -> Segment {
    Segment { x0, y0, x1, y1, color, width: 3 }
}

#[test]
fn primitives_as_lines() {
    let w = WinRect { left: 10, top: 20, right: 500, bottom: 400 };
    let r = OverlayPrimitive::Rect { x: 15, y: 25, w: 7, h: 9, color: 1 };
    assert_eq!(
        draw_primitive(&r, w),
        vec![seg(5, 5, 12, 5, 1), seg(12, 5, 12, 14, 1), seg(12, 14, 5, 14, 1), seg(5, 14, 5, 5, 1)]
    );
    let l = OverlayPrimitive::Line { x0: 10, y0: 20, x1: 0, y1: 30, color: 2 };
    assert_eq!(draw_primitive(&l, w), vec![seg(0, 0, -10, 10, 2)]);
    let c = OverlayPrimitive::Cross { x: 20, y: 40, radius: 4, color: 3 };
    assert_eq!(draw_primitive(&c, w), vec![seg(6, 20, 14, 20, 3), seg(10, 16, 10, 24, 3)]);
}

#[test]
fn bounds_and_markers() {
    let w = WinRect { left: 10, top: 20, right: 1010, bottom: 60 };
    assert_eq!(paint_size(Some(w)), (1000, 150));
    assert_eq!(paint_size(None), (420, 150));
    assert_eq!(default_bounds(Some(w)), (10, 20, 1000, 150));
    assert_eq!(default_bounds(None), (30, 30, 420, 150));
    assert_eq!(marker_box(ClickMarker { x: 110, y: 30 }, w), Some((95, 5, 106, 16)));
    assert_eq!(marker_box(ClickMarker { x: 9, y: 30 }, w), None);
    assert_eq!(marker_box(ClickMarker { x: 1010, y: 30 }, w), None);
    assert_eq!(line_place(2), (15, 48));
    assert_eq!(line_place(7), (15, 138));
}

#[test]
fn painting_needs_a_window() {
    let mut s = OverlayState::new("t");
    s.set_debug_primitives(vec![OverlayPrimitive::Line { x0: 1, y0: 2, x1: 3, y1: 4, color: 5 }]);
    s.mark_click(50, 60);
    s.mark_click(-50, 60);
    let plan = s.paint("3.0", None);
    assert_eq!((plan.width, plan.height, plan.segments.len(), plan.discs.len()), (420, 150, 0, 0));
    assert_eq!(plan.lines.len(), 4);
    s.set_lines(vec![String::from("a"), String::from("b"), String::from("c"), String::from("status: running")]);
    assert_eq!(s.paint("3.0", None).lines[7], "status: running");
    let plan = s.paint("3.0", Some(WinRect { left: 0, top: 0, right: 600, bottom: 400 }));
    assert_eq!((plan.width, plan.height), (600, 400));
    assert_eq!(plan.segments, vec![seg(1, 2, 3, 4, 5)]);
    assert_eq!(plan.discs, vec![(45, 55, 56, 66)]);
}

#[test]
fn window_messages() {
    assert_eq!(react(0x0113, 0), WindowAction::Refresh);
    assert_eq!(react(0x0312, 1), WindowAction::StopAndClose);
    assert_eq!(react(0x0312, 2), WindowAction::Ignore);
    assert_eq!(react(0x000f, 0), WindowAction::Paint);
    assert_eq!(react(0x0014, 0), WindowAction::SkipErase);
    assert_eq!(react(0x0002, 0), WindowAction::StopAndQuit);
    assert_eq!(react(0x0400, 0), WindowAction::Default);
}

#[test]
fn cpu_load() {
    let t = |idle, kernel, user| CpuTimes { idle, kernel, user };
    let mut m = CpuMeter::new(1000, 0, t(100, 200, 300));
    assert!(!m.due(249));
    assert!(m.due(250));
    m.update(250, Some(t(150, 280, 320)));
    assert_eq!((m.busy, m.total, m.last_update), (50, 100, 250));
    m.update(600, None);
    assert_eq!((m.busy, m.total, m.last_update), (50, 100, 600));
    m.update(900, Some(t(150, 280, 320)));
    assert_eq!((m.busy, m.total), (50, 100));
    m.update(1200, Some(t(950, 290, 320)));
    assert_eq!((m.busy, m.total), (0, 10));
    assert_eq!(filetime_to_u64(FileTime { dw_low_date_time: 7, dw_high_date_time: 2 }), 0x2_0000_0007);
}

#[test]
fn wide_text() {
    let s = "Dota 2 \u{e9}\u{1f97e}";
    let want: Vec<u16> = s.encode_utf16().collect();
    assert_eq!(encode(s), want);
    let mut with_end = want;
    with_end.push(0);
    assert_eq!(wide(s), with_end);
    assert_eq!(wide(""), vec![0]);
}
