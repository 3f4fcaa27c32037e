use rmon::monitor::ProcRow;
use rmon::mouse::{
    confirm_popup_rect, core_overlay_rect, core_rows_exec, offset_for, picker_popup_rect, rows_scrollbar, scrollbar_rect,
    sys_popup_rect,
    Mouse, MouseKind, Rect,
};
use rmon::state::{App, AppEvent, Key, KeyCode};
use rmon::collect::MountInfo;

fn app() -> App {
    App::new("/tmp".to_string())
}

fn row(pid: i32) -> ProcRow {
    ProcRow { pid, ppid: 0, name: format!("p{pid}"), cpu_ns: 0, rss: 0, io_bytes: None, tid: None, prefix: String::new() }
}

const FRAME: Rect = Rect { x: 0, y: 0, width: 80, height: 40 };
const NET: Rect = Rect { x: 0, y: 12, width: 80, height: 12 };
const DSK: Rect = Rect { x: 0, y: 24, width: 36, height: 12 };
const PROC: Rect = Rect { x: 36, y: 24, width: 44, height: 12 };

fn at(kind: MouseKind, column: u16, row: u16) -> Mouse {
    Mouse { kind, column, row }
}

fn mouse(app: &mut App, m: Mouse) {
    app.handle_mouse(m, FRAME);
}

#[test]
fn rect_new_cuts_at_the_screen_edge() {
    let r = Rect::new(65530, 10, 100, 5);
    assert_eq!(r.width, 5);
    assert!(r.contains(65534, 12));
    assert!(!r.contains(65529, 12));
}

#[test]
fn wheel_scrolls_proc_selection() {
    let mut app = app();
    app.procs = (0..20).map(row).collect();
    mouse(&mut app, at(MouseKind::ScrollDown, 50, 30));
    mouse(&mut app, at(MouseKind::ScrollDown, 50, 30));
    assert_eq!(app.selected, 2);
    mouse(&mut app, at(MouseKind::ScrollUp, 50, 30));
    assert_eq!(app.selected, 1);
    assert_eq!(app.selected_id, Some((1, None)));
}

#[test]
fn wheel_outside_proc_is_ignored() {
    let mut app = app();
    app.procs = (0..20).map(row).collect();
    mouse(&mut app, at(MouseKind::ScrollDown, 10, 5));
    assert_eq!(app.selected, 0);
}

#[test]
fn click_selects_row_and_borders_do_not() {
    let mut app = app();
    app.procs = (0..5).map(row).collect();
    // border row 24, header row 25, first data row 26
    mouse(&mut app, at(MouseKind::Down, 50, 28));
    assert_eq!(app.selected, 2);
    mouse(&mut app, at(MouseKind::Down, 50, 24));
    mouse(&mut app, at(MouseKind::Down, 50, 25));
    assert_eq!(app.selected, 2);
    // below the last row: nothing to pick
    mouse(&mut app, at(MouseKind::Down, 50, 33));
    assert_eq!(app.selected, 2);
}

#[test]
fn click_maps_through_the_drawn_offset_not_the_selection() {
    let mut app = app();
    app.procs = (0..50).map(row).collect();
    app.view_offset = 10;
    app.selected = 0;
    mouse(&mut app, at(MouseKind::Down, 50, 26));
    assert_eq!(app.selected, 10, "first visible row is what was clicked");
}

#[test]
fn scrollbar_rect_sits_on_the_right_border() {
    assert_eq!(scrollbar_rect(PROC, 5), None);
    let t = scrollbar_rect(PROC, 50).unwrap();
    assert_eq!(t, Rect { x: 79, y: 25, width: 1, height: 10 });
}

#[test]
fn scrollbar_grab_drags_and_release_stops_it() {
    let mut app = app();
    app.procs = (0..50).map(row).collect();
    mouse(&mut app, at(MouseKind::Down, 79, 25));
    assert!(app.drag_scroll);
    assert_eq!(app.selected, 0);
    mouse(&mut app, at(MouseKind::Drag, 10, 34));
    assert_eq!(app.selected, 49);
    mouse(&mut app, at(MouseKind::Up, 10, 34));
    assert!(!app.drag_scroll);
    mouse(&mut app, at(MouseKind::Drag, 79, 25));
    assert_eq!(app.selected, 49, "drag without grab is ignored");
}

#[test]
fn row_list_tracks_and_offsets() {
    let t = rows_scrollbar(NET, 13, 4, 10).unwrap();
    assert_eq!(t, Rect { x: 79, y: 13, width: 1, height: 4 });
    assert_eq!(rows_scrollbar(NET, 13, 4, 3), None);
    assert_eq!(offset_for(13, t, 10, 4), 0);
    assert_eq!(offset_for(16, t, 10, 4), 6);
    assert_eq!(offset_for(14, t, 10, 4), 2);
    assert_eq!(offset_for(200, t, 10, 4), 6, "clamped");
}

#[test]
fn popups_are_centered_and_cut_to_the_frame() {
    let p = picker_popup_rect(FRAME, 3);
    assert_eq!(p, Rect { x: 16, y: 17, width: 48, height: 5 });
    let k = confirm_popup_rect(FRAME, 5);
    assert_eq!(k, Rect { x: 19, y: 18, width: 41, height: 3 });
    let tiny = picker_popup_rect(Rect { x: 0, y: 0, width: 10, height: 2 }, 3);
    assert_eq!((tiny.width, tiny.height), (10, 2));
}

#[test]
fn picker_wheel_moves_and_click_starts() {
    let mut app = app();
    app.mounts = vec![MountInfo { mount_point: "/a".into(), total: 2, available: 1 }];
    app.on_event(AppEvent::Key(Key { code: KeyCode::Char('b'), ctrl: false }));
    mouse(&mut app, at(MouseKind::ScrollDown, 0, 0));
    assert_eq!(app.picker.as_ref().unwrap().selected, 1);
    // popup for 2 entries: y = 18, rows 19 and 20
    let p = picker_popup_rect(FRAME, 2);
    mouse(&mut app, at(MouseKind::Down, p.x + 2, p.y + 1));
    assert!(app.picker.is_none());
    assert_eq!(app.bench_target.as_deref(), Some("/a"));
}

#[test]
fn picker_click_outside_closes() {
    let mut app = app();
    app.on_event(AppEvent::Key(Key { code: KeyCode::Char('b'), ctrl: false }));
    mouse(&mut app, at(MouseKind::Down, 0, 0));
    assert!(app.picker.is_none());
    assert!(app.bench_target.is_none());
}

#[test]
fn kill_prompt_swallows_mouse_and_click_outside_closes() {
    let mut app = app();
    app.procs = (0..5).map(row).collect();
    app.on_event(AppEvent::Key(Key { code: KeyCode::Char('k'), ctrl: false }));
    assert!(app.confirm_kill.is_some());
    let k = confirm_popup_rect(FRAME, 2);
    mouse(&mut app, at(MouseKind::Down, k.x + 1, k.y + 1));
    assert!(app.confirm_kill.is_some(), "a click inside never confirms");
    mouse(&mut app, at(MouseKind::ScrollDown, 50, 30));
    assert_eq!(app.selected, 0);
    mouse(&mut app, at(MouseKind::Down, 50, 28));
    assert!(app.confirm_kill.is_none());
    assert_eq!(app.selected, 0, "the closing click must not select a row");
}

#[test]
fn net_wheel_scrolls_within_the_hidden_rows() {
    let mut app = app();
    app.show_idle = true;
    app.net_rows_cap = 4;
    app.net_ifaces = (0..10)
        .map(|i| rmon::deltas::NetRow { name: format!("if{i}"), rx_bytes: 0, tx_bytes: 0, idle_ns: 0 })
        .collect();
    mouse(&mut app, at(MouseKind::ScrollDown, 5, 15));
    assert_eq!(app.net_offset, 1);
    for _ in 0..20 {
        mouse(&mut app, at(MouseKind::ScrollDown, 5, 15));
    }
    assert_eq!(app.net_offset, 6, "clamped");
    mouse(&mut app, at(MouseKind::Down, 79, 16));
    assert!(app.drag_net);
    assert_eq!(app.net_offset, 6);
}

#[test]
fn core_overlay_centers_over_the_graph() {
    let inner = Rect { x: 0, y: 0, width: 100, height: 20 };
    assert_eq!(core_overlay_rect(inner, 10, true, false), Some(Rect { x: 24, y: 6, width: 51, height: 8 }));
    // per-core temps widen each column by five cells
    assert_eq!(core_overlay_rect(inner, 10, false, true), Some(Rect { x: 19, y: 6, width: 61, height: 7 }));
    // a short box clips to the graph's height
    let flat = Rect { x: 2, y: 3, width: 100, height: 4 };
    assert_eq!(core_overlay_rect(flat, 10, true, false), Some(Rect { x: 26, y: 3, width: 51, height: 4 }));
    // too narrow for a column, or nothing to show
    assert_eq!(core_overlay_rect(Rect { x: 0, y: 0, width: 20, height: 20 }, 10, true, false), None);
    assert_eq!(core_overlay_rect(inner, 0, false, false), None);
    assert_eq!(core_overlay_rect(inner, 0, true, false), Some(Rect { x: 24, y: 8, width: 51, height: 3 }));
    // filled column by column: c0..c2 left, c3..c4 right
    assert_eq!(core_rows_exec(5), vec![(0, Some(3)), (1, Some(4)), (2, None)]);
    assert_eq!(core_rows_exec(4), vec![(0, Some(2)), (1, Some(3))]);
    assert!(core_rows_exec(0).is_empty());
}

fn overflowing_app() -> App {
    let mut app = app();
    app.procs = (0..100).map(row).collect();
    app
}

#[test]
fn scrollbar_rect_matches_draw_position() {
    let app = overflowing_app();
    let track = scrollbar_rect(PROC, app.procs.len()).unwrap();
    // right border column, one row in from each corner (matches the draw margin)
    assert_eq!(track, Rect::new(PROC.x + PROC.width - 1, PROC.y + 1, 1, PROC.height - 2));
    // border 2 + header 1; the bar only exists once the list overflows
    let visible = (PROC.height as usize).saturating_sub(3);
    assert!(scrollbar_rect(PROC, visible).is_none());
    assert!(scrollbar_rect(PROC, visible + 1).is_some());
}

#[test]
fn scrollbar_click_jumps_selection() {
    let mut app = overflowing_app();
    let track = scrollbar_rect(PROC, app.procs.len()).unwrap();
    app.select(5);
    mouse(&mut app, at(MouseKind::Down, track.x, track.y));
    assert_eq!(app.selected, 0);
    assert!(app.drag_scroll);
    mouse(&mut app, at(MouseKind::Down, track.x, track.y + track.height - 1));
    assert_eq!(app.selected, app.procs.len() - 1);
}

#[test]
fn scrollbar_grab_is_not_a_row_click() {
    let mut app = overflowing_app();
    let track = scrollbar_rect(PROC, app.procs.len()).unwrap();
    let len = app.procs.len();
    // second track row sits on the first data row; a row click would pick
    // index 0, the track ratio jumps much further down the list
    let row = track.y + 1;
    mouse(&mut app, at(MouseKind::Down, track.x, row));
    let mapped = (row - track.y) as usize * (len - 1) / (track.height - 1) as usize;
    assert_eq!(app.selected, mapped);
    assert_ne!(app.selected, 0);
}

#[test]
fn scrollbar_drag_follows_row_and_release_stops_it() {
    let mut app = overflowing_app();
    let track = scrollbar_rect(PROC, app.procs.len()).unwrap();
    let len = app.procs.len();
    mouse(&mut app, at(MouseKind::Down, track.x, track.y));
    assert!(app.drag_scroll);
    let mid = track.y + track.height / 2;
    mouse(&mut app, at(MouseKind::Drag, track.x, mid));
    assert_eq!(app.selected, (mid - track.y) as usize * (len - 1) / (track.height - 1) as usize);
    // pointer wanders off the column mid-drag; the row still drives it
    mouse(&mut app, at(MouseKind::Drag, 0, track.y + track.height - 1));
    assert_eq!(app.selected, len - 1);
    // above the track clamps to the top
    mouse(&mut app, at(MouseKind::Drag, 0, 0));
    assert_eq!(app.selected, 0);
    // release outside the panel still ends the drag
    mouse(&mut app, at(MouseKind::Up, 0, 0));
    assert!(!app.drag_scroll);
    mouse(&mut app, at(MouseKind::Drag, track.x, track.y + track.height - 1));
    assert_eq!(app.selected, 0);
}

#[test]
fn drag_without_grab_is_ignored() {
    let mut app = overflowing_app();
    let track = scrollbar_rect(PROC, app.procs.len()).unwrap();
    mouse(&mut app, at(MouseKind::Drag, track.x, track.y + track.height - 1));
    assert_eq!(app.selected, 0);
    assert!(!app.drag_scroll);
}

#[test]
fn right_border_click_ignored_when_list_fits() {
    let mut app = app();
    app.procs = (0..2).map(row).collect();
    assert!(scrollbar_rect(PROC, app.procs.len()).is_none());
    // a scrollbar grab here would jump to the last proc; a row click lands
    // below the two rows and is ignored either way
    mouse(&mut app, at(MouseKind::Down, PROC.x + PROC.width - 1, PROC.y + PROC.height - 2));
    assert_eq!(app.selected, 0);
    assert!(!app.drag_scroll);
}

#[test]
fn net_wheel_scrolls_and_scrollbar_drags_the_viewport() {
    let mut app = app();
    app.net_ifaces = (0..10)
        .map(|i| rmon::deltas::NetRow { name: format!("en{i}"), rx_bytes: 1000, tx_bytes: 1000, idle_ns: 0 })
        .collect();
    // the draw records the row capacity the mouse maps against
    app.net_rows_cap = 8;
    assert!(app.net_rows_cap > 0 && app.net_rows_cap < 10);
    // wheel inside the panel moves the viewport, clamped at the overflow
    let (cx, cy) = (NET.x + 2, NET.y + 2);
    mouse(&mut app, at(MouseKind::ScrollDown, cx, cy));
    assert_eq!(app.net_offset, 1);
    for _ in 0..20 {
        mouse(&mut app, at(MouseKind::ScrollDown, cx, cy));
    }
    assert_eq!(app.net_offset, 10 - app.net_rows_cap, "clamped");
    mouse(&mut app, at(MouseKind::ScrollUp, cx, cy));
    assert_eq!(app.net_offset, 10 - app.net_rows_cap - 1);
    // grab the top of the border track: jump to 0 and start a drag
    let track = rows_scrollbar(NET, NET.y + 1, app.net_rows_cap, 10).expect("overflows");
    mouse(&mut app, at(MouseKind::Down, track.x, track.y));
    assert!(app.drag_net);
    assert_eq!(app.net_offset, 0);
    // drag to the bottom: max offset, even off-column
    mouse(&mut app, at(MouseKind::Drag, 0, track.y + track.height - 1));
    assert_eq!(app.net_offset, 10 - app.net_rows_cap);
    mouse(&mut app, at(MouseKind::Up, 0, 0));
    assert!(!app.drag_net);
}

#[test]
fn dsk_wheel_scrolls_its_viewport() {
    let mut app = app();
    app.disks = (0..12)
        .map(|i| rmon::deltas::DiskRow {
            name: format!("disk{i}"),
            read_bytes: 1,
            written_bytes: 1,
            ops: 1,
            busy_ns: None,
            io_ns: None,
            weighted_ns: None,
            idle_ns: 0,
        })
        .collect();
    app.dsk_rows_cap = 7;
    assert!(app.dsk_rows_cap > 0 && app.dsk_rows_cap < 12);
    let (cx, cy) = (DSK.x + 2, DSK.y + 2);
    mouse(&mut app, at(MouseKind::ScrollDown, cx, cy));
    assert_eq!(app.dsk_offset, 1);
    for _ in 0..30 {
        mouse(&mut app, at(MouseKind::ScrollDown, cx, cy));
    }
    assert_eq!(app.dsk_offset, 12 - app.dsk_rows_cap, "clamped");
}

#[test]
fn kill_prompt_width_counts_name_bytes() {
    let mut app = app();
    let name = "é".repeat(21);
    app.procs = vec![ProcRow { name: name.clone(), ..row(1) }];
    app.on_event(AppEvent::Key(Key { code: KeyCode::Char('k'), ctrl: false }));
    assert!(app.confirm_kill.is_some());
    let k = confirm_popup_rect(FRAME, name.len());
    assert_eq!(k, Rect { x: 7, y: 18, width: 66, height: 3 });
    // inside the byte-wide prompt: the click is swallowed, the prompt stays
    mouse(&mut app, at(MouseKind::Down, 8, 19));
    assert!(app.confirm_kill.is_some());
    mouse(&mut app, at(MouseKind::Down, 5, 19));
    assert!(app.confirm_kill.is_none());
}

#[test]
fn system_popup_is_centered_and_sized_by_its_rows() {
    // logo 20 wide and 17 tall beside rows at most 25 wide (30 kept for live rows)
    let r = sys_popup_rect(FRAME, 20, 17, &vec![10, 25, 8]);
    assert_eq!(r, Rect { x: 13, y: 10, width: 54, height: 19 });
    // wide rows widen it; few logo rows leave the info rows plus four live ones
    let r = sys_popup_rect(FRAME, 10, 2, &vec![40]);
    assert_eq!(r, Rect { x: 13, y: 16, width: 54, height: 7 });
    // cut to a small frame
    let r = sys_popup_rect(Rect { x: 0, y: 0, width: 30, height: 10 }, 20, 17, &vec![]);
    assert_eq!(r, Rect { x: 0, y: 0, width: 30, height: 10 });
}

#[test]
fn panels_split_the_frame() {
    let app = app();
    let (cpu, net, dsk, pr, mem) = app.panels(FRAME);
    assert_eq!(cpu, Rect { x: 0, y: 0, width: 80, height: 12 });
    assert_eq!((net, dsk, pr), (NET, DSK, PROC));
    assert_eq!(mem, Rect { x: 0, y: 36, width: 80, height: 4 });
    // a host with swap gives the memory panel a fifth row
    let mut swap = rmon::state::App::new("/tmp".to_string());
    swap.mem.swap_total = 1;
    let (_, _, dsk, _, mem) = swap.panels(FRAME);
    assert_eq!((dsk.height, mem), (11, Rect { x: 0, y: 35, width: 80, height: 5 }));
}
