use forestools::launcher::{
    accept_shortcut_stem, open_result, scan_cached, should_skip, AppInfo, AppScan, LauncherError,
};
use forestools::ui::{
    content_height, hotkey_command, key_step, select_next, select_prev, IconRequests, KeyPresses, Rgba,
    ThemeColors, WindowCommand, MAX_WINDOW_HEIGHT,
};
use forestools::window::{
    current_window_position, default_position, handle_drag, hide_main_window, is_main_window_visible,
    is_position_on_screen, is_valid_position, save_current_position, show_main_window, DragAction,
    DragState, PhysicalPos,
};

#[test]
fn positions_valid_and_on_screen() {
    assert!(is_valid_position(PhysicalPos::new(0, 0)));
    assert!(!is_valid_position(PhysicalPos::new(-32000, -32000)));
    assert!(!is_valid_position(PhysicalPos::new(5, -10_000)));
    let monitors = [(0, 0, 1920, 1080), (1920, 0, 3840, 1080)];
    assert!(is_position_on_screen(PhysicalPos::new(2000, 10), &monitors));
    assert!(!is_position_on_screen(PhysicalPos::new(3840, 10), &monitors));
    assert!(!is_position_on_screen(PhysicalPos::new(10, 10), &[]));
}

#[test]
fn saving_filters_sentinels() {
    assert_eq!(current_window_position(Some((3, 4, 100, 100))), Some(PhysicalPos::new(3, 4)));
    assert_eq!(current_window_position(None), None);
    assert_eq!(save_current_position(Some(PhysicalPos::new(-32000, -32000))), None);
    assert_eq!(save_current_position(Some(PhysicalPos::new(10, 20))), Some(PhysicalPos::new(10, 20)));
    assert_eq!(hide_main_window(Some((10, 20, 30, 40))), Some(PhysicalPos::new(10, 20)));
    assert_eq!(hide_main_window(Some((-32000, -32000, 0, 0))), None);
}

#[test]
fn show_restores_or_centres() {
    let monitors = [(0, 0, 1920, 1080)];
    let saved = Some(PhysicalPos::new(100, 100));
    assert_eq!(show_main_window(saved, &monitors, Some((0, 0, 800, 400)), 1920), saved);
    // off-screen saved position: centred, 200 from the top
    let off = Some(PhysicalPos::new(5000, 100));
    assert_eq!(show_main_window(off, &monitors, Some((0, 0, 800, 400)), 1920), Some(PhysicalPos::new(560, 200)));
    assert_eq!(show_main_window(None, &monitors, Some((0, 0, 3000, 400)), 1920), Some(PhysicalPos::new(0, 200)));
    assert_eq!(show_main_window(None, &monitors, Some((5, 0, 5, 400)), 11), Some(PhysicalPos::new(5, 200)));
    assert_eq!(show_main_window(None, &monitors, None, 1920), None);
}

#[test]
fn default_position_centres_on_monitor() {
    assert_eq!(default_position(PhysicalPos::new(100, 50), 1000, 400), PhysicalPos::new(400, 250));
    // wider window: truncating division toward zero
    assert_eq!(default_position(PhysicalPos::new(0, 0), 100, 103), PhysicalPos::new(-1, 200));
}

#[test]
fn visibility() {
    assert!(is_main_window_visible(Some(1)));
    assert!(!is_main_window_visible(Some(0)));
    assert!(!is_main_window_visible(None));
}

#[test]
fn drag_moves_window_by_pointer_delta() {
    let mut drag: Option<DragState> = None;
    let win = PhysicalPos::new(100, 100);
    // press in the search bar: drag starts, window stays
    let a = handle_drag(&mut drag, true, Some((10, 10)), true, Some(win));
    assert_eq!(a, DragAction::Move(PhysicalPos::new(100, 100)));
    assert!(drag.is_some());
    // pointer moved by (+5, -3) relative to the window that has not moved yet
    let a = handle_drag(&mut drag, true, Some((15, 7)), true, Some(win));
    assert_eq!(a, DragAction::Move(PhysicalPos::new(105, 97)));
    // release: save
    let a = handle_drag(&mut drag, false, None, false, None);
    assert_eq!(a, DragAction::Save);
    assert!(drag.is_none());
    // release without a drag: nothing
    assert_eq!(handle_drag(&mut drag, false, None, false, None), DragAction::Idle);
    // press outside the bar: no drag
    assert_eq!(handle_drag(&mut drag, true, Some((10, 100)), false, Some(win)), DragAction::Idle);
    assert!(drag.is_none());
}

#[test]
fn selection_wraps() {
    assert_eq!(select_next(0, 3), 1);
    assert_eq!(select_next(2, 3), 0);
    assert_eq!(select_prev(0, 3), 2);
    assert_eq!(select_prev(2, 3), 1);
    assert_eq!(select_prev(select_next(1, 3), 3), 1);
}

#[test]
fn heights() {
    assert_eq!(content_height(0), 56);
    assert_eq!(content_height(1), 108);
    assert_eq!(content_height(8), MAX_WINDOW_HEIGHT);
    assert_eq!(content_height(20), 416);
}

#[test]
fn hotkey_toggles() {
    assert_eq!(hotkey_command(true), WindowCommand::Hide);
    assert_eq!(hotkey_command(false), WindowCommand::Show);
}

#[test]
fn themes() {
    let d = ThemeColors::pick(true);
    assert_eq!(d, ThemeColors::dark());
    assert_eq!(d.bg, Rgba { r: 40, g: 40, b: 42, a: 255 });
    let l = ThemeColors::pick(false);
    assert_eq!(l.selected, Rgba { r: 0, g: 113, b: 227, a: 31 });
    assert_eq!(l.border, Rgba { r: 0, g: 0, b: 0, a: 26 });
}

#[test]
fn skip_rules() {
    assert!(should_skip("Uninstall Foo"));
    assert!(should_skip("卸载程序"));
    assert!(should_skip("Foo Help"));
    assert!(should_skip("README"));
    assert!(!should_skip("微信"));
    assert!(!should_skip("Notepad"));
}

#[test]
fn shortcut_stems() {
    assert_eq!(accept_shortcut_stem("LNK", Some("  Foo  ")), Some("Foo".to_string()));
    assert_eq!(accept_shortcut_stem("exe", Some("Foo")), None);
    assert_eq!(accept_shortcut_stem("lnk", None), None);
    assert_eq!(accept_shortcut_stem("lnk", Some("   ")), None);
    assert_eq!(accept_shortcut_stem("lnk", Some("Uninstall Foo")), None);
}

#[test]
fn scan_collects_and_dedupes() {
    let mut scan = AppScan::new();
    assert!(scan.add_shortcut("p1".into(), "Control Panel".into(), Some(" 控制中心 ")));
    assert!(!scan.add_shortcut("p2".into(), "控制中心".into(), None));
    assert!(scan.add_shortcut("p3".into(), "Notepad".into(), Some("Notepad")));
    assert!(!scan.add_shortcut("p4".into(), "NOTEPAD".into(), Some("  ")));
    assert!(!scan.add_shortcut("p5".into(), "Foo".into(), Some("Foo Help")));
    assert!(scan.add_bundle("Safari.app", "/Applications/Safari.app".into()));
    assert!(!scan.add_bundle("Folder", "/Applications/Folder".into()));
    assert!(scan.add_bundle("Odd.app.app", "/Applications/Odd.app.app".into()));
    assert!(!scan.add_bundle(".app", "/x".into()));
    let apps = scan.into_apps();
    let got: Vec<(&str, &str, Vec<&str>)> = apps
        .iter()
        .map(|a| (a.name.as_str(), a.path.as_str(), a.aliases.iter().map(|s| s.as_str()).collect()))
        .collect();
    assert_eq!(
        got,
        vec![
            ("控制中心", "p1", vec!["Control Panel"]),
            ("Notepad", "p3", vec![]),
            ("Safari", "/Applications/Safari.app", vec![]),
            ("Odd", "/Applications/Odd.app.app", vec![]),
        ]
    );
}

#[test]
fn scan_cache_scans_once() {
    let mut cache: Option<Vec<AppInfo>> = None;
    let mk = || vec![AppInfo { name: "A".into(), path: "p".into(), aliases: vec![] }];
    let first = scan_cached(&mut cache, mk);
    assert_eq!(first.len(), 1);
    let second = scan_cached(&mut cache, || -> Vec<AppInfo> { panic!("scanned twice") });
    assert_eq!(second[0].name, "A");
}

#[test]
fn open_outcomes() {
    assert!(open_result(42).is_ok());
    assert!(open_result(-1).is_ok());
    match open_result(2) {
        Err(LauncherError::ShellExecuteFailed(c)) => assert_eq!(c, 2),
        Ok(()) => panic!("expected failure"),
    }
}

fn keys(down: bool, up: bool, enter: bool, escape: bool) -> KeyPresses {
    KeyPresses { down, up, enter, escape }
}

#[test]
fn keys_move_and_wrap_selection() {
    let r = key_step(2, 3, true, keys(true, false, false, false));
    assert_eq!((r.selected, r.launch, r.clear_query, r.hide), (0, None, false, false));
    let r = key_step(0, 3, true, keys(false, true, false, false));
    assert_eq!(r.selected, 2);
    let r = key_step(1, 3, true, keys(true, true, false, false));
    assert_eq!(r.selected, 1);
    // no results: arrows do nothing
    let r = key_step(4, 0, true, keys(true, true, true, false));
    assert_eq!((r.selected, r.launch, r.hide), (4, None, false));
}

#[test]
fn enter_launches_selected_and_hides() {
    let r = key_step(1, 3, true, keys(false, false, true, false));
    assert_eq!((r.selected, r.launch, r.clear_query, r.hide), (1, Some(1), true, true));
    // a selection beyond the list launches nothing
    let r = key_step(5, 3, true, keys(false, false, true, false));
    assert_eq!((r.launch, r.clear_query, r.hide), (None, false, false));
    // Down then Enter launches the newly selected result
    let r = key_step(0, 3, true, keys(true, false, true, false));
    assert_eq!(r.launch, Some(1));
}

#[test]
fn escape_hides_without_launch() {
    let r = key_step(0, 2, true, keys(false, false, false, true));
    assert_eq!((r.selected, r.launch, r.clear_query, r.hide), (0, None, false, true));
    let r = key_step(0, 0, true, keys(false, false, false, true));
    assert!(r.hide);
}

#[test]
fn hidden_window_ignores_keys() {
    let r = key_step(1, 3, false, keys(true, true, true, true));
    assert_eq!((r.selected, r.launch, r.clear_query, r.hide), (1, None, false, false));
}

#[test]
fn icon_paths_requested_once() {
    let mut req = IconRequests::new();
    assert_eq!(req.request(&["a", "b", "a"]), vec!["a".to_string(), "b".to_string()]);
    assert_eq!(req.request(&["b", "c", "c", "a"]), vec!["c".to_string()]);
    assert!(req.request(&[]).is_empty());
    assert!(req.contains("c"));
    assert!(!req.contains("d"));
}
