//! The pointer: the wheel scrolls, a click selects a process row or runs a
//! bench prompt row, the right-border tracks drag their viewports. Screen
//! geometry is in terminal cells; the panel rectangles come from the same
//! layout the frame is drawn with.

use vstd::prelude::*;
use ratatui::layout::{Constraint, Layout};
use crate::deltas::IDLE_HIDE_NS;
use crate::monitor::rows_view;
use crate::state::{
    on_list,
    App, AppModel, BenchState, fresh_bench, select_m, shown_disks, shown_nets, step_up,
    wf_m,
};

verus! {

/// A rectangle of terminal cells.
#[derive(Debug, Clone, Copy, PartialEq, Eq, Structural)]
pub struct Rect {
    pub x: u16,
    pub y: u16,
    pub width: u16,
    pub height: u16,
}

/// `v` kept to 16 bits, as u16 arithmetic wraps.
pub open spec fn w16(v: int) -> u16 {
    (v % 65536) as u16
}

/// The first column right of the rectangle (saturating, like `Rect::right`).
pub open spec fn right_of(r: Rect) -> int {
    if r.x + r.width > u16::MAX {
        u16::MAX as int
    } else {
        r.x + r.width
    }
}

/// The first row below the rectangle (saturating, like `Rect::bottom`).
pub open spec fn bottom_of(r: Rect) -> int {
    if r.y + r.height > u16::MAX {
        u16::MAX as int
    } else {
        r.y + r.height
    }
}

/// Whether a cell lies in the rectangle.
pub open spec fn inside(r: Rect, col: u16, row: u16) -> bool {
    r.x <= col < right_of(r) && r.y <= row < bottom_of(r)
}

impl Rect {
    /// A rectangle whose width and height are cut so that it ends on screen
    /// (`ratatui::layout::Rect::new`).
    pub fn new(x: u16, y: u16, width: u16, height: u16) -> (r: Rect)
        ensures
            r.x == x && r.y == y,
            r.width == (if width > u16::MAX - x { (u16::MAX - x) as u16 } else { width }),
            r.height == (if height > u16::MAX - y { (u16::MAX - y) as u16 } else { height }),
    {
        let max_w = u16::MAX - x;
        let max_h = u16::MAX - y;
        Rect { x, y, width: if width > max_w { max_w } else { width }, height: if height > max_h { max_h } else { height } }
    }

    /// Whether the cell at (col, row) lies inside.
    pub fn contains(self, col: u16, row: u16) -> (r: bool)
        ensures
            r == inside(self, col, row),
    {
        let right = self.x.saturating_add(self.width);
        let bottom = self.y.saturating_add(self.height);
        col >= self.x && col < right && row >= self.y && row < bottom
    }
}

/// What the pointer did; only the left button clicks and drags.
#[derive(Debug, Clone, Copy, PartialEq, Eq, Structural)]
pub enum MouseKind {
    ScrollUp,
    ScrollDown,
    Down,
    Drag,
    Up,
    Other,
}

/// A pointer event at a cell.
#[derive(Debug, Clone, Copy, PartialEq, Eq, Structural)]
pub struct Mouse {
    pub kind: MouseKind,
    pub column: u16,
    pub row: u16,
}

/// The centered bench prompt, sized to its entries and cut to the frame.
pub open spec fn picker_popup(frame: Rect, entries: nat) -> Rect {
    let w0 = w16(frame.width * 6) / 10;
    let w1 = if w0 < 24 { 24 } else if w0 > 70 { 70 } else { w0 };
    let w = if w1 > frame.width { frame.width as int } else { w1 as int };
    let h0 = w16(w16(entries as int) + 2);
    let h = if h0 > frame.height { frame.height as int } else { h0 as int };
    rect_at(w16(frame.x + (frame.width - w) / 2), w16(frame.y + (frame.height - h) / 2), w as u16, h as u16)
}

/// The centered kill prompt: wide enough for its line and title.
pub open spec fn confirm_popup(frame: Rect, name_len: nat) -> Rect {
    let want = w16(name_len as int + 24);
    let w1 = if want < 41 { 41 } else if want > 70 { 70 } else { want as int };
    let w = if w1 > frame.width { frame.width as int } else { w1 };
    let h = if frame.height < 3 { frame.height as int } else { 3 };
    rect_at(w16(frame.x + (frame.width - w) / 2), w16(frame.y + (frame.height - h) / 2), w as u16, h as u16)
}

/// `Rect::new` as a specification.
pub open spec fn rect_at(x: u16, y: u16, width: u16, height: u16) -> Rect {
    Rect {
        x,
        y,
        width: if width > u16::MAX - x { (u16::MAX - x) as u16 } else { width },
        height: if height > u16::MAX - y { (u16::MAX - y) as u16 } else { height },
    }
}

/// The process list's scrollbar track on the right border, one row in from
/// each corner; None while the list fits.
pub open spec fn proc_track(area: Rect, n: nat) -> Option<Rect> {
    let visible = if area.height >= 3 { area.height - 3 } else { 0 };
    if n <= visible {
        None
    } else {
        Some(Rect { x: w16(right_of(area) - 1), y: w16(area.y + 1), width: 1, height: w16(area.height - 2) })
    }
}

/// A row list's track on the right border from row `y`, `cap` rows tall;
/// None while everything fits.
pub open spec fn rows_track(panel: Rect, y: u16, cap: usize, n: nat) -> Option<Rect> {
    if n > cap && cap > 0 {
        Some(Rect { x: w16(right_of(panel) - 1), y, width: 1, height: w16(cap as int) })
    } else {
        None
    }
}

/// The pointer row pinned onto a track.
pub open spec fn pin(row: u16, track: Rect) -> int {
    if row < track.y {
        track.y as int
    } else if row > track.y + track.height - 1 {
        track.y + track.height - 1
    } else {
        row as int
    }
}

/// The process a pointer row on the track stands for: rows spread evenly
/// over the list.
pub open spec fn track_index(row: u16, track: Rect, len: nat) -> int {
    let i = (pin(row, track) - track.y) * (len - 1) / (track.height - 1);
    if i > len - 1 {
        len - 1
    } else {
        i
    }
}

/// Dragging on the process track moves the highlight; lists or tracks too
/// short to map leave it.
pub open spec fn scroll_to_m(m: AppModel, row: u16, track: Rect) -> AppModel {
    if m.procs.len() < 2 || track.height < 2 {
        m
    } else {
        select_m(m, track_index(row, track, m.procs.len()) as usize)
    }
}

/// The first row of a row list for a pointer row on its track.
pub open spec fn offset_at(row: u16, track: Rect, n: nat, cap: usize) -> usize {
    let span = if n > cap { n - cap } else { 0 };
    if span == 0 || track.height < 2 {
        0
    } else {
        let q = (pin(row, track) - track.y) * span;
        let d = (track.height - 1) as int;
        let c = (q + d - 1) / d;
        (if c > span { span } else { c }) as usize
    }
}

/// A pointer event while the bench prompt is open: the wheel moves the
/// highlight, a click on a row starts that bench, a click outside closes it.
pub open spec fn picker_mouse_m(m: AppModel, e: Mouse, frame: Rect) -> AppModel {
    let p = m.picker->0;
    let n = p.entries.len();
    let area = picker_popup(frame, n);
    match e.kind {
        MouseKind::ScrollUp => AppModel {
            picker: Some(crate::state::PickerModel { selected: step_up(p.selected), ..p }),
            ..m
        },
        MouseKind::ScrollDown => AppModel {
            picker: Some(
                crate::state::PickerModel {
                    selected: crate::state::step_down(p.selected, n),
                    ..p
                },
            ),
            ..m
        },
        MouseKind::Down => {
            if !inside(area, e.column, e.row) {
                AppModel { picker: None, ..m }
            } else {
                let first = area.y + 1;
                let idx = e.row - first;
                if e.row >= first && e.row + 1 < area.y + area.height && idx < n {
                    AppModel {
                        picker: None,
                        bench: Some(fresh_bench()),
                        bench_target: Some(p.entries[idx].0),
                        ..m
                    }
                } else {
                    m
                }
            }
        },
        _ => m,
    }
}

/// The wheel or a track grab on the interface list.
pub open spec fn net_mouse_m(m: AppModel, e: Mouse, net: Rect) -> AppModel {
    let n = shown_nets(m.net_ifaces, m.show_idle).len();
    let max = if n > m.net_rows_cap { n - m.net_rows_cap } else { 0 };
    match e.kind {
        MouseKind::ScrollUp => AppModel { net_offset: step_up(m.net_offset), ..m },
        MouseKind::ScrollDown => AppModel {
            net_offset: (if m.net_offset + 1 > max { max } else { m.net_offset + 1 }) as usize,
            ..m
        },
        MouseKind::Down => match rows_track(net, w16(net.y + 1), m.net_rows_cap, n) {
            Some(t) => if inside(t, e.column, e.row) {
                AppModel { drag_net: true, net_offset: offset_at(e.row, t, n, m.net_rows_cap), ..m }
            } else {
                m
            },
            None => m,
        },
        _ => m,
    }
}

/// The wheel or a track grab on the disk list.
pub open spec fn dsk_mouse_m(m: AppModel, e: Mouse, dsk: Rect) -> AppModel {
    let n = shown_disks(m.disks, m.show_idle).len();
    let max = if n > m.dsk_rows_cap { n - m.dsk_rows_cap } else { 0 };
    match e.kind {
        MouseKind::ScrollUp => AppModel { dsk_offset: step_up(m.dsk_offset), ..m },
        MouseKind::ScrollDown => AppModel {
            dsk_offset: (if m.dsk_offset + 1 > max { max } else { m.dsk_offset + 1 }) as usize,
            ..m
        },
        MouseKind::Down => match rows_track(dsk, w16(dsk.y + 1), m.dsk_rows_cap, n) {
            Some(t) => if inside(t, e.column, e.row) {
                AppModel { drag_dsk: true, dsk_offset: offset_at(e.row, t, n, m.dsk_rows_cap), ..m }
            } else {
                m
            },
            None => m,
        },
        _ => m,
    }
}

/// The wheel moves the highlight; a click on the track grabs it, a click on
/// a row selects the row drawn there (through the offset last drawn).
pub open spec fn proc_mouse_m(m: AppModel, e: Mouse, pr: Rect) -> AppModel {
    let len = m.procs.len();
    let last = if len > 0 { len - 1 } else { 0 };
    match e.kind {
        MouseKind::ScrollUp => select_m(m, step_up(m.selected)),
        MouseKind::ScrollDown => select_m(
            m,
            (if m.selected + 1 > last { last } else { m.selected + 1 }) as usize,
        ),
        MouseKind::Down => match proc_track(pr, len) {
            Some(t) if inside(t, e.column, e.row) => scroll_to_m(
                AppModel { drag_scroll: true, ..m },
                e.row,
                t,
            ),
            _ => {
                let first = pr.y + 2;
                let idx = m.view_offset + (e.row - first);
                if e.row < first || e.row + 1 >= pr.y + pr.height || idx >= len {
                    m
                } else {
                    select_m(m, idx as usize)
                }
            },
        },
        _ => m,
    }
}

/// A pointer event with no prompt open: a drag in flight follows the
/// pointer wherever it wanders, a release ends every drag, else the panel
/// under the pointer takes it.
#[verifier::opaque]
pub open spec fn free_mouse_m(m: AppModel, e: Mouse, net: Rect, dsk: Rect, pr: Rect) -> AppModel {
    if e.kind == MouseKind::Drag && m.drag_scroll {
        match proc_track(pr, m.procs.len()) {
            Some(t) => scroll_to_m(m, e.row, t),
            None => m,
        }
    } else if e.kind == MouseKind::Drag && m.drag_net {
        let n = shown_nets(m.net_ifaces, m.show_idle).len();
        match rows_track(net, w16(net.y + 1), m.net_rows_cap, n) {
            Some(t) => AppModel { net_offset: offset_at(e.row, t, n, m.net_rows_cap), ..m },
            None => m,
        }
    } else if e.kind == MouseKind::Drag && m.drag_dsk {
        let n = shown_disks(m.disks, m.show_idle).len();
        match rows_track(dsk, w16(dsk.y + 1), m.dsk_rows_cap, n) {
            Some(t) => AppModel { dsk_offset: offset_at(e.row, t, n, m.dsk_rows_cap), ..m },
            None => m,
        }
    } else if e.kind == MouseKind::Up {
        AppModel { drag_scroll: false, drag_net: false, drag_dsk: false, ..m }
    } else if inside(net, e.column, e.row) {
        net_mouse_m(m, e, net)
    } else if inside(dsk, e.column, e.row) {
        dsk_mouse_m(m, e, dsk)
    } else if !inside(pr, e.column, e.row) {
        m
    } else {
        proc_mouse_m(m, e, pr)
    }
}

/// How many bytes the kill prompt's name takes in UTF-8, as `str::len`
/// counts them.
pub open spec fn prompt_name_len(m: AppModel) -> nat {
    match m.confirm_kill {
        Some((_, name)) => (vstd::utf8::encode_utf8(name).len() as usize) as nat,
        None => 0,
    }
}

/// A pointer event. The prompts are modal: the bench prompt takes it
/// first; the kill prompt only closes on a click outside it, so that a
/// stray click cannot confirm a kill.
pub open spec fn mouse_m(
    m: AppModel,
    e: Mouse,
    frame: Rect,
    net: Rect,
    dsk: Rect,
    pr: Rect,
) -> AppModel {
    if m.picker is Some {
        picker_mouse_m(m, e, frame)
    } else if m.confirm_kill is Some {
        if e.kind == MouseKind::Down && !inside(
            confirm_popup(frame, prompt_name_len(m)),
            e.column,
            e.row,
        ) {
            AppModel { confirm_kill: None, ..m }
        } else {
            m
        }
    } else {
        free_mouse_m(m, e, net, dsk, pr)
    }
}

/// The bench prompt's rectangle for `entries` rows.
#[verifier::rlimit(50)]
pub fn picker_popup_rect(frame: Rect, entries: usize) -> (r: Rect)
    ensures
        r == picker_popup(frame, entries as nat),
{
    let w0: u16 = ((frame.width as u32 * 6) % 65536) as u16 / 10;
    let w1 = if w0 < 24 { 24 } else if w0 > 70 { 70 } else { w0 };
    let w = if w1 > frame.width { frame.width } else { w1 };
    let h0: u16 = (((entries % 65536) as u32 + 2) % 65536) as u16;
    let h = if h0 > frame.height { frame.height } else { h0 };
    let x: u16 = ((frame.x as u32 + ((frame.width - w) / 2) as u32) % 65536) as u16;
    let y: u16 = ((frame.y as u32 + ((frame.height - h) / 2) as u32) % 65536) as u16;
    Rect::new(x, y, w, h)
}

/// The kill prompt's rectangle for a name of `name_len` bytes.
#[verifier::rlimit(50)]
pub fn confirm_popup_rect(frame: Rect, name_len: usize) -> (r: Rect)
    ensures
        r == confirm_popup(frame, name_len as nat),
{
    let want: u16 = (((name_len % 65536) as u32 + 24) % 65536) as u16;
    let w1: u16 = if want < 41 { 41 } else if want > 70 { 70 } else { want };
    let w = if w1 > frame.width { frame.width } else { w1 };
    let h: u16 = if frame.height < 3 { frame.height } else { 3 };
    let x: u16 = ((frame.x as u32 + ((frame.width - w) / 2) as u32) % 65536) as u16;
    let y: u16 = ((frame.y as u32 + ((frame.height - h) / 2) as u32) % 65536) as u16;
    Rect::new(x, y, w, h)
}

/// The process list's scrollbar track (see `proc_track`).
pub fn scrollbar_rect(area: Rect, n: usize) -> (r: Option<Rect>)
    ensures
        r == proc_track(area, n as nat),
{
    let visible = area.height.saturating_sub(3);
    if n <= visible as usize {
        return None;
    }
    let right = area.x.saturating_add(area.width);
    Some(Rect {
        x: right.wrapping_sub(1),
        y: area.y.wrapping_add(1),
        width: 1,
        height: area.height.wrapping_sub(2),
    })
}

/// A row list's scrollbar track (see `rows_track`).
pub fn rows_scrollbar(panel: Rect, y: u16, cap: usize, n: usize) -> (r: Option<Rect>)
    ensures
        r == rows_track(panel, y, cap, n as nat),
{
    if n > cap && cap > 0 {
        let right = panel.x.saturating_add(panel.width);
        Some(Rect { x: right.wrapping_sub(1), y, width: 1, height: (cap % 65536) as u16 })
    } else {
        None
    }
}

fn pin_exec(row: u16, track: Rect) -> (r: u32)
    requires
        track.height >= 1,
    ensures
        r == pin(row, track),
        track.y <= r <= track.y + track.height - 1,
{
    let hi: u32 = track.y as u32 + track.height as u32 - 1;
    if (row as u32) < track.y as u32 {
        track.y as u32
    } else if row as u32 > hi {
        hi
    } else {
        row as u32
    }
}

/// The first row of a row list for a pointer row on its track (see `offset_at`).
pub fn offset_for(row: u16, track: Rect, n: usize, cap: usize) -> (r: usize)
    ensures
        r == offset_at(row, track, n as nat, cap),
{
    let span: usize = if n > cap { n - cap } else { 0 };
    if span == 0 || track.height < 2 {
        return 0;
    }
    let p = pin_exec(row, track);
    let a: u128 = (p - track.y as u32) as u128;
    let b: u128 = span as u128;
    assert(a * b <= 0xFFFF_FFFFu128 * 0xFFFF_FFFF_FFFF_FFFFu128) by (nonlinear_arith)
        requires
            a <= 0xFFFF_FFFFu128,
            b <= 0xFFFF_FFFF_FFFF_FFFFu128,
    ;
    let q: u128 = a * b;
    let d: u128 = (track.height - 1) as u128;
    let c: u128 = (q + d - 1) / d;
    if c > span as u128 {
        span
    } else {
        c as usize
    }
}

/// The panels ratatui's layout solver makes of `frame` with a memory panel
/// of `mem_rows` rows: cpu, net, dsk, proc and mem.
pub uninterp spec fn panel_layout(frame: Rect, mem_rows: u16) -> (Rect, Rect, Rect, Rect, Rect);

/// `ratatui::layout::Layout::areas`: the frame split into a 30% cpu band,
/// a 12-row net band, the rest, and the memory rows; the rest split 45/55
/// into dsk and proc. The layout depends on these arguments alone; the
/// contract names its result and states no more.
#[verifier::external_body]
fn solve_panels(frame: Rect, mem_rows: u16) -> (r: (Rect, Rect, Rect, Rect, Rect))
    ensures
        r == panel_layout(frame, mem_rows),
{
    let area = ratatui::layout::Rect::new(frame.x, frame.y, frame.width, frame.height);
    let rows = [Constraint::Percentage(30), Constraint::Length(12), Constraint::Fill(3), Constraint::Length(mem_rows)];
    let [cpu, net, band, mem] = Layout::vertical(rows).areas(area);
    let [dsk, pr] = Layout::horizontal([Constraint::Percentage(45), Constraint::Percentage(55)]).areas(band);
    let r = [cpu, net, dsk, pr, mem].map(|a| Rect { x: a.x, y: a.y, width: a.width, height: a.height });
    (r[0], r[1], r[2], r[3], r[4])
}

/// The memory panel's rows: its meters and borders; the swap meter only
/// when the host has swap.
pub open spec fn mem_rows(m: AppModel) -> u16 {
    if m.mem.swap_total > 0 {
        5
    } else {
        4
    }
}

impl App {
    /// Dragging on the process track moves the highlight (see `scroll_to_m`).
    pub fn scroll_to(&mut self, row: u16, track: Rect)
        ensures
            final(self)@ == scroll_to_m(old(self)@, row, track),
    {
        let len = self.procs.len();
        if len < 2 || track.height < 2 {
            return;
        }
        let p = pin_exec(row, track);
        let a: u128 = (p - track.y as u32) as u128;
        let b: u128 = (len - 1) as u128;
        assert(a * b <= 0xFFFF_FFFFu128 * 0xFFFF_FFFF_FFFF_FFFFu128) by (nonlinear_arith)
            requires
                a <= 0xFFFF_FFFFu128,
                b <= 0xFFFF_FFFF_FFFF_FFFFu128,
        ;
        let i: u128 = a * b / (track.height - 1) as u128;
        let idx: usize = if i > (len - 1) as u128 { len - 1 } else { i as usize };
        self.select(idx);
    }

    #[verifier::rlimit(60)]
    fn picker_mouse(&mut self, e: Mouse, frame: Rect)
        requires
            old(self).wf(),
            old(self).picker is Some,
        ensures
            final(self)@ == picker_mouse_m(old(self)@, e, frame),
            final(self).wf(),
    {
        let n = match &self.picker {
            Some(p) => p.entries.len(),
            None => 0,
        };
        let sel = match &self.picker {
            Some(p) => p.selected,
            None => 0,
        };
        let area = picker_popup_rect(frame, n);
        match e.kind {
            MouseKind::ScrollUp => {
                let mut p = self.picker.take().unwrap();
                p.selected = if sel > 0 { sel - 1 } else { 0 };
                self.picker = Some(p);
            },
            MouseKind::ScrollDown => {
                let mut p = self.picker.take().unwrap();
                p.selected = if n > 0 && sel < n - 1 {
                    sel + 1
                } else if n == 0 {
                    0
                } else if sel >= n {
                    n - 1
                } else {
                    sel
                };
                self.picker = Some(p);
            },
            MouseKind::Down => {
                if !area.contains(e.column, e.row) {
                    self.picker = None;
                } else if e.row as u32 >= area.y as u32 + 1 && (e.row as u32) + 1 < area.y as u32
                    + area.height as u32 && ((e.row - area.y - 1) as usize) < n {
                    let idx = (e.row - area.y - 1) as usize;
                    let p = self.picker.take().unwrap();
                    let target = p.entries[idx].path.clone();
                    self.bench = Some(
                        BenchState { running: None, results: Vec::new(), error: None, direct: None },
                    );
                    self.bench_target = Some(target);
                }
            },
            _ => {},
        }
    }

    fn visible_net_count(&self) -> (r: usize)
        ensures
            r == shown_nets(self@.net_ifaces, self.show_idle).len(),
    {
        let v = self.visible_net();
        proof {
            assert(v@.map_values(|x: &crate::deltas::NetRow| x@).len() == v@.len());
        }
        v.len()
    }

    fn visible_disk_count(&self) -> (r: usize)
        ensures
            r == shown_disks(self@.disks, self.show_idle).len(),
    {
        let v = self.visible_disks();
        proof {
            assert(v@.map_values(|x: &crate::deltas::DiskRow| x@).len() == v@.len());
        }
        v.len()
    }

    #[verifier::rlimit(60)]
    fn net_mouse(&mut self, e: Mouse, net: Rect)
        ensures
            final(self)@ == net_mouse_m(old(self)@, e, net),
    {
        let n = self.visible_net_count();
        let max = if n > self.net_rows_cap { n - self.net_rows_cap } else { 0 };
        match e.kind {
            MouseKind::ScrollUp => {
                self.net_offset = if self.net_offset > 0 { self.net_offset - 1 } else { 0 };
            },
            MouseKind::ScrollDown => {
                self.net_offset = if self.net_offset >= max { max } else { self.net_offset + 1 };
            },
            MouseKind::Down => {
                let y = net.y.wrapping_add(1);
                match rows_scrollbar(net, y, self.net_rows_cap, n) {
                    Some(t) => {
                        if t.contains(e.column, e.row) {
                            self.drag_net = true;
                            self.net_offset = offset_for(e.row, t, n, self.net_rows_cap);
                        }
                    },
                    None => {},
                }
            },
            _ => {},
        }
    }

    #[verifier::rlimit(60)]
    fn dsk_mouse(&mut self, e: Mouse, dsk: Rect)
        ensures
            final(self)@ == dsk_mouse_m(old(self)@, e, dsk),
    {
        let n = self.visible_disk_count();
        let max = if n > self.dsk_rows_cap { n - self.dsk_rows_cap } else { 0 };
        match e.kind {
            MouseKind::ScrollUp => {
                self.dsk_offset = if self.dsk_offset > 0 { self.dsk_offset - 1 } else { 0 };
            },
            MouseKind::ScrollDown => {
                self.dsk_offset = if self.dsk_offset >= max { max } else { self.dsk_offset + 1 };
            },
            MouseKind::Down => {
                let y = dsk.y.wrapping_add(1);
                match rows_scrollbar(dsk, y, self.dsk_rows_cap, n) {
                    Some(t) => {
                        if t.contains(e.column, e.row) {
                            self.drag_dsk = true;
                            self.dsk_offset = offset_for(e.row, t, n, self.dsk_rows_cap);
                        }
                    },
                    None => {},
                }
            },
            _ => {},
        }
    }

    #[verifier::rlimit(60)]
    fn proc_mouse(&mut self, e: Mouse, pr: Rect)
        ensures
            final(self)@ == proc_mouse_m(old(self)@, e, pr),
    {
        let len = self.procs.len();
        let last = if len > 0 { len - 1 } else { 0 };
        match e.kind {
            MouseKind::ScrollUp => {
                let s = if self.selected > 0 { self.selected - 1 } else { 0 };
                self.select(s);
            },
            MouseKind::ScrollDown => {
                let s = if self.selected >= last { last } else { self.selected + 1 };
                self.select(s);
            },
            MouseKind::Down => {
                let track = scrollbar_rect(pr, len);
                let grabbed = match track {
                    Some(t) => t.contains(e.column, e.row),
                    None => false,
                };
                if grabbed {
                    let t = track.unwrap();
                    self.drag_scroll = true;
                    self.scroll_to(e.row, t);
                } else {
                    let first: u32 = pr.y as u32 + 2;
                    if (e.row as u32) < first || e.row as u32 + 1 >= pr.y as u32 + pr.height as u32 {
                    } else {
                        let k = (e.row as u32 - first) as usize;
                        if self.view_offset < len && k < len - self.view_offset {
                            self.select(self.view_offset + k);
                        }
                    }
                }
            },
            _ => {},
        }
    }

    fn drag_proc(&mut self, e: Mouse, pr: Rect)
        ensures
            final(self)@ == (match proc_track(pr, old(self)@.procs.len()) {
                Some(t) => scroll_to_m(old(self)@, e.row, t),
                None => old(self)@,
            }),
    {
        match scrollbar_rect(pr, self.procs.len()) {
            Some(t) => self.scroll_to(e.row, t),
            None => {},
        }
    }

    fn drag_net_rows(&mut self, e: Mouse, net: Rect)
        ensures
            final(self)@ == ({
                let m = old(self)@;
                let n = shown_nets(m.net_ifaces, m.show_idle).len();
                match rows_track(net, w16(net.y + 1), m.net_rows_cap, n) {
                    Some(t) => AppModel { net_offset: offset_at(e.row, t, n, m.net_rows_cap), ..m },
                    None => m,
                }
            }),
    {
        let n = self.visible_net_count();
        match rows_scrollbar(net, net.y.wrapping_add(1), self.net_rows_cap, n) {
            Some(t) => {
                self.net_offset = offset_for(e.row, t, n, self.net_rows_cap);
            },
            None => {},
        }
    }

    fn drag_dsk_rows(&mut self, e: Mouse, dsk: Rect)
        ensures
            final(self)@ == ({
                let m = old(self)@;
                let n = shown_disks(m.disks, m.show_idle).len();
                match rows_track(dsk, w16(dsk.y + 1), m.dsk_rows_cap, n) {
                    Some(t) => AppModel { dsk_offset: offset_at(e.row, t, n, m.dsk_rows_cap), ..m },
                    None => m,
                }
            }),
    {
        let n = self.visible_disk_count();
        match rows_scrollbar(dsk, dsk.y.wrapping_add(1), self.dsk_rows_cap, n) {
            Some(t) => {
                self.dsk_offset = offset_for(e.row, t, n, self.dsk_rows_cap);
            },
            None => {},
        }
    }

    #[verifier::rlimit(100)]
    #[verifier::spinoff_prover]
    fn free_mouse(&mut self, e: Mouse, net: Rect, dsk: Rect, pr: Rect)
        requires
            old(self).wf(),
        ensures
            final(self)@ == free_mouse_m(old(self)@, e, net, dsk, pr),
            final(self).wf(),
    {
        reveal(free_mouse_m);
        if e.kind == MouseKind::Drag && self.drag_scroll {
            self.drag_proc(e, pr);
        } else if e.kind == MouseKind::Drag && self.drag_net {
            self.drag_net_rows(e, net);
        } else if e.kind == MouseKind::Drag && self.drag_dsk {
            self.drag_dsk_rows(e, dsk);
        } else if e.kind == MouseKind::Up {
            self.drag_scroll = false;
            self.drag_net = false;
            self.drag_dsk = false;
        } else if net.contains(e.column, e.row) {
            self.net_mouse(e, net);
        } else if dsk.contains(e.column, e.row) {
            self.dsk_mouse(e, dsk);
        } else if pr.contains(e.column, e.row) {
            self.proc_mouse(e, pr);
        }
    }

    /// The panels the frame is drawn with, from the one layout the pointer
    /// is mapped through too: cpu, net, dsk, proc and mem.
    pub fn panels(&self, frame: Rect) -> (r: (Rect, Rect, Rect, Rect, Rect))
        ensures
            r == panel_layout(frame, mem_rows(self@)),
    {
        solve_panels(frame, if self.mem.swap_total > 0 { 5 } else { 4 })
    }

    /// A pointer event on a screen of `frame` (see `mouse_m`), mapped
    /// through the panels of `panels`.
    #[verifier::rlimit(60)]
    pub fn handle_mouse(&mut self, e: Mouse, frame: Rect)
        requires
            old(self).wf(),
        ensures
            ({
                let p = panel_layout(frame, mem_rows(old(self)@));
                final(self)@ == mouse_m(old(self)@, e, frame, p.1, p.2, p.3)
            }),
            final(self).wf(),
    {
        let (_, net, dsk, pr, _) = self.panels(frame);
        if self.picker.is_some() {
            self.picker_mouse(e, frame);
            return;
        }
        if self.confirm_kill.is_some() {
            let n = match &self.confirm_kill {
                Some(kp) => kp.name.as_str().len(),
                None => 0,
            };
            if e.kind == MouseKind::Down && !confirm_popup_rect(frame, n).contains(e.column, e.row) {
                self.confirm_kill = None;
            }
            return;
        }
        self.free_mouse(e, net, dsk, pr);
    }
}


/// While the kill prompt is open the pointer cannot act on the monitor: a
/// pointer event leaves everything as it is, except that a click outside
/// the prompt closes it. No pointer event ever signals a process.
pub proof fn law_kill_prompt_is_modal(m: AppModel, e: Mouse, frame: Rect, net: Rect, dsk: Rect, pr: Rect)
    requires
        m.picker is None,
        m.confirm_kill is Some,
    ensures
        mouse_m(m, e, frame, net, dsk, pr) == (if e.kind == MouseKind::Down && !inside(
            confirm_popup(frame, prompt_name_len(m)),
            e.column,
            e.row,
        ) {
            AppModel { confirm_kill: None, ..m }
        } else {
            m
        }),
{
}

/// While the bench prompt is open the pointer acts on it alone: the list,
/// the highlight, the viewport and every other prompt stay as they are; the
/// wheel moves the prompt's highlight one row within its entries; a click
/// outside closes it without a target; a click on entry `i` closes it with
/// that entry as the target; anything else changes nothing.
pub proof fn law_bench_prompt_is_modal(m: AppModel, e: Mouse, frame: Rect, net: Rect, dsk: Rect, pr: Rect)
    requires
        m.picker is Some,
        m.picker->0.selected < m.picker->0.entries.len(),
    ensures
        ({
            let r = mouse_m(m, e, frame, net, dsk, pr);
            let p = m.picker->0;
            let n = p.entries.len();
            let area = picker_popup(frame, n);
            &&& r.procs == m.procs && r.selected == m.selected && r.selected_id == m.selected_id
            &&& r.view_offset == m.view_offset && r.quit == m.quit && r.confirm_kill == m.confirm_kill
            &&& (r.picker matches Some(q) ==> q.entries == p.entries && q.selected < n)
            &&& (e.kind == MouseKind::ScrollUp ==> r.picker == Some(
                crate::state::PickerModel { selected: step_up(p.selected), ..p },
            ))
            &&& (e.kind == MouseKind::ScrollDown ==> r.picker == Some(
                crate::state::PickerModel { selected: crate::state::step_down(p.selected, n), ..p },
            ))
            &&& (e.kind == MouseKind::Down && !inside(area, e.column, e.row) ==> r.picker is None
                && r.bench_target == m.bench_target)
            &&& (forall|i: int|
                0 <= i < n && e.kind == MouseKind::Down && inside(area, e.column, e.row) && e.row == area.y + 1
                    + i && e.row + 1 < area.y + area.height ==> r.picker is None && r.bench_target == Some(
                    #[trigger] p.entries[i].0,
                ))
            &&& (e.kind != MouseKind::ScrollUp && e.kind != MouseKind::ScrollDown && e.kind != MouseKind::Down
                ==> r == m)
        }),
{
}

/// Width of one column of the core overlay (`c00` meter and percent); a
/// per-core temperature adds five cells.
pub const CORE_COL_W: u16 = 24;

/// The box of core meters (two columns, filled column by column) and the
/// load line, centered over the cpu graph in `inner`: none when there is
/// nothing to show or not room for one column and a line.
pub open spec fn core_overlay(inner: Rect, ncores: nat, load: bool, temps: bool) -> Option<Rect> {
    let n = w16(ncores as int);
    let rows = (n + 1) / 2;
    let content = rows + if load { 1int } else { 0int };
    let col = if temps { CORE_COL_W + 5 } else { CORE_COL_W as int };
    let w = if col * 2 + 3 < inner.width { col * 2 + 3 } else { inner.width as int };
    let h = if content + 2 < inner.height { content + 2 } else { inner.height as int };
    if content == 0 || w < col || h < 3 {
        None
    } else {
        Some(
            rect_at(
                w16(inner.x + (inner.width - w) / 2),
                w16(inner.y + (inner.height - h) / 2),
                w as u16,
                h as u16,
            ),
        )
    }
}

pub fn core_overlay_rect(inner: Rect, ncores: usize, load: bool, temps: bool) -> (r: Option<Rect>)
    ensures
        r == core_overlay(inner, ncores as nat, load, temps),
{
    let n: u16 = (ncores % 65536) as u16;
    let rows: u16 = n / 2 + n % 2;
    assert(rows == (n + 1) / 2);
    let content: u16 = rows + if load { 1u16 } else { 0u16 };
    if content == 0 {
        return None;
    }
    let col: u16 = if temps { CORE_COL_W + 5 } else { CORE_COL_W };
    let w: u16 = if col * 2 + 3 < inner.width { col * 2 + 3 } else { inner.width };
    let h: u16 = if content + 2 < inner.height { content + 2 } else { inner.height };
    if w < col || h < 3 {
        return None;
    }
    let x: u16 = ((inner.x as u32 + ((inner.width - w) / 2) as u32) % 65536) as u16;
    let y: u16 = ((inner.y as u32 + ((inner.height - h) / 2) as u32) % 65536) as u16;
    Some(Rect::new(x, y, w, h))
}

/// The overlay's rows of core indices: row `r` shows core `r` on the left
/// and core `r + rows` on the right when there is one.
pub open spec fn core_rows(ncores: nat) -> Seq<(usize, Option<usize>)> {
    let rows = (w16(ncores as int) + 1) / 2;
    Seq::new(
        rows as nat,
        |r: int| (r as usize, if r + rows < ncores { Some((r + rows) as usize) } else { None }),
    )
}

pub fn core_rows_exec(ncores: usize) -> (r: Vec<(usize, Option<usize>)>)
    ensures
        r@ == core_rows(ncores as nat),
{
    let n: u16 = (ncores % 65536) as u16;
    let rows: usize = (n / 2 + n % 2) as usize;
    assert(rows == (w16(ncores as int) + 1) / 2);
    let mut out: Vec<(usize, Option<usize>)> = Vec::new();
    let mut i: usize = 0;
    while i < rows
        invariant
            rows == (w16(ncores as int) + 1) / 2,
            rows <= 32768,
            i <= rows,
            out@ =~= core_rows(ncores as nat).take(i as int),
        decreases rows - i,
    {
        let right = if i + rows < ncores { Some(i + rows) } else { None };
        out.push((i, right));
        i += 1;
    }
    out
}

proof fn lemma_scroll_to_on_list(m: AppModel, row: u16, track: Rect)
    requires
        on_list(m),
    ensures
        on_list(scroll_to_m(m, row, track)),
{
    if m.procs.len() >= 2 && track.height >= 2 {
        let a = pin(row, track) - track.y;
        let b = m.procs.len() - 1;
        let c = track.height - 1;
        assert(a * b / c >= 0) by (nonlinear_arith)
            requires
                a >= 0,
                b >= 0,
                c > 0,
        ;
    }
}

proof fn lemma_proc_mouse_on_list(m: AppModel, e: Mouse, pr: Rect)
    requires
        on_list(m),
    ensures
        on_list(proc_mouse_m(m, e, pr)),
{
    if e.kind == MouseKind::Down {
        match proc_track(pr, m.procs.len()) {
            Some(t) => if inside(t, e.column, e.row) {
                lemma_scroll_to_on_list(AppModel { drag_scroll: true, ..m }, e.row, t);
            },
            None => {},
        }
    }
}

/// Whatever the pointer does, the highlight stays on the process list: the
/// wheel stops at its ends, a click selects only a drawn row, and the track
/// maps onto the list.
pub proof fn law_pointer_keeps_highlight_on_the_list(
    m: AppModel,
    e: Mouse,
    frame: Rect,
    net: Rect,
    dsk: Rect,
    pr: Rect,
)
    requires
        on_list(m),
    ensures
        on_list(mouse_m(m, e, frame, net, dsk, pr)),
{
    reveal(free_mouse_m);
    if m.picker is None && m.confirm_kill is None {
        if e.kind == MouseKind::Drag && m.drag_scroll {
            match proc_track(pr, m.procs.len()) {
                Some(t) => lemma_scroll_to_on_list(m, e.row, t),
                None => {},
            }
        } else {
            lemma_proc_mouse_on_list(m, e, pr);
        }
    }
}

/// Rows the system-info popup keeps for the live lines (cpu, gpu, memory,
/// uptime), so its size depends on the static rows alone.
pub const SYS_LIVE_ROWS: usize = 4;

pub open spec fn max_width(ws: Seq<usize>) -> nat
    decreases ws.len(),
{
    if ws.len() == 0 {
        0
    } else {
        let m = max_width(ws.drop_last());
        if ws.last() > m { ws.last() as nat } else { m }
    }
}

/// The centered system-info popup: the logo (`logo_w` columns, `logo_rows`
/// rows) beside the info rows (widest `label: value` of `widths`, at least
/// 30 columns for the live rows), inside a border, cut to the frame.
pub open spec fn sys_popup(frame: Rect, logo_w: nat, logo_rows: nat, widths: Seq<usize>) -> Rect {
    let info_w = if max_width(widths) < 30 { 30 } else { max_width(widths) };
    let w0 = w16((logo_w + 2 + info_w + 2) as int);
    let w = if w0 > frame.width { frame.width as int } else { w0 as int };
    let live = (widths.len() + SYS_LIVE_ROWS) as int;
    let rows = if logo_rows > live { logo_rows as int } else { live };
    let h0 = w16(rows + 2);
    let h = if h0 > frame.height { frame.height as int } else { h0 as int };
    rect_at(w16(frame.x + (frame.width - w) / 2), w16(frame.y + (frame.height - h) / 2), w as u16, h as u16)
}

/// `widths` are the info rows' `label` plus `: ` plus `value` widths.
pub fn sys_popup_rect(frame: Rect, logo_w: usize, logo_rows: usize, widths: &Vec<usize>) -> (r: Rect)
    ensures
        r == sys_popup(frame, logo_w as nat, logo_rows as nat, widths@),
{
    let mut m: usize = 0;
    let mut i: usize = 0;
    while i < widths.len()
        invariant
            i <= widths.len(),
            m == max_width(widths@.take(i as int)),
        decreases widths.len() - i,
    {
        assert(widths@.take(i + 1).drop_last() == widths@.take(i as int));
        if widths[i] > m {
            m = widths[i];
        }
        i += 1;
    }
    assert(widths@.take(widths.len() as int) == widths@);
    let info_w: u128 = if m < 30 { 30 } else { m as u128 };
    let w0: u16 = ((logo_w as u128 + 2 + info_w + 2) % 65536) as u16;
    let w: u16 = if w0 > frame.width { frame.width } else { w0 };
    let n = widths.len() as u128 + SYS_LIVE_ROWS as u128;
    let rows: u128 = if logo_rows as u128 > n { logo_rows as u128 } else { n };
    let h0: u16 = ((rows + 2) % 65536) as u16;
    let h: u16 = if h0 > frame.height { frame.height } else { h0 };
    let x: u16 = ((frame.x as u32 + ((frame.width - w) / 2) as u32) % 65536) as u16;
    let y: u16 = ((frame.y as u32 + ((frame.height - h) / 2) as u32) % 65536) as u16;
    Rect::new(x, y, w, h)
}

} // verus!
