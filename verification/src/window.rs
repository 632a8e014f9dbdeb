//! Window placement: positions in physical pixels, the rules for which
//! positions are kept, where the window goes when it is shown, and how a
//! drag on the search bar moves it.

use vstd::prelude::*;

verus! {

/// The title of the main search window (the shell finds the window by it).
pub const WINDOW_TITLE: &'static str = "神奇的海螺";

/// The distance from the top of the screen at which an unplaced window opens.
pub const DEFAULT_TOP: i32 = 200;

/// A position in physical pixels (as the Win32 API uses them).
#[derive(Clone, Copy, Debug, PartialEq, Eq, Structural)]
pub struct PhysicalPos {
    pub x: i32,
    pub y: i32,
}

impl PhysicalPos {
    pub fn new(x: i32, y: i32) -> (r: Self)
        ensures
            r.x == x,
            r.y == y,
    {
        PhysicalPos { x, y }
    }
}

/// A saved window position.
#[derive(Clone, Copy, Debug, PartialEq, Eq, Structural)]
pub struct WindowPosition {
    pub x: i32,
    pub y: i32,
}

/// A rectangle `(left, top, right, bottom)` in physical pixels.
pub type ScreenRect = (i32, i32, i32, i32);

/// A position worth keeping. Windows reports a minimised or hidden window at
/// sentinel coordinates such as (-32000, -32000); such positions, far off
/// screen, are never stored.
pub open spec fn valid_position(x: int, y: int) -> bool {
    x > -10_000 && y > -10_000
}

/// Whether `pos` is worth keeping (see [`valid_position`]).
pub fn is_valid_position(pos: PhysicalPos) -> (r: bool)
    ensures
        r == valid_position(pos.x as int, pos.y as int),
{
    pos.x > -10_000 && pos.y > -10_000
}

/// The point (`x`, `y`) lies in the rectangle (right and bottom edges excluded).
pub open spec fn inside(x: int, y: int, m: ScreenRect) -> bool {
    x >= m.0 && x < m.2 && y >= m.1 && y < m.3
}

/// The point lies on one of the monitors.
pub open spec fn on_some_monitor(x: int, y: int, monitors: Seq<ScreenRect>) -> bool {
    exists|i: int| 0 <= i < monitors.len() && inside(x, y, #[trigger] monitors[i])
}

/// Whether `pos` lies on one of the monitors (each given as its rectangle).
/// A saved position outside every monitor (the monitors changed, or an old
/// sentinel was stored) is not restored.
pub fn is_position_on_screen(pos: PhysicalPos, monitors: &[ScreenRect]) -> (r: bool)
    ensures
        r == on_some_monitor(pos.x as int, pos.y as int, monitors@),
{
    let mut i: usize = 0;
    while i < monitors.len()
        invariant
            i <= monitors.len(),
            forall|j: int| 0 <= j < i ==> !inside(pos.x as int, pos.y as int, #[trigger] monitors@[j]),
        decreases monitors.len() - i,
    {
        let (x0, y0, x1, y1) = monitors[i];
        if pos.x >= x0 && pos.x < x1 && pos.y >= y0 && pos.y < y1 {
            assert(inside(pos.x as int, pos.y as int, monitors@[i as int]));
            return true;
        }
        i += 1;
    }
    false
}

/// The window position given by its rectangle, if the rectangle could be read:
/// its top-left corner.
pub fn current_window_position(rect: Option<ScreenRect>) -> (r: Option<PhysicalPos>)
    ensures
        match rect {
            Some(rc) => r == Some(PhysicalPos { x: rc.0, y: rc.1 }),
            None => r is None,
        },
{
    match rect {
        Some((left, top, _right, _bottom)) => Some(PhysicalPos::new(left, top)),
        None => None,
    }
}

/// The position to store when the current one is saved (on hiding, on quit,
/// when a drag ends): the current position, if it is known and worth keeping.
pub fn save_current_position(current: Option<PhysicalPos>) -> (r: Option<PhysicalPos>)
    ensures
        match current {
            Some(p) => r == (if valid_position(p.x as int, p.y as int) {
                Some(p)
            } else {
                None
            }),
            None => r is None,
        },
{
    match current {
        Some(p) => if is_valid_position(p) {
            Some(p)
        } else {
            None
        },
        None => None,
    }
}

/// The position stored for a window rectangle: its top-left corner, when
/// the rectangle is known and the corner is worth keeping.
pub open spec fn position_to_store(rect: Option<ScreenRect>) -> Option<PhysicalPos> {
    match rect {
        Some(rc) => if valid_position(rc.0 as int, rc.1 as int) {
            Some(PhysicalPos { x: rc.0, y: rc.1 })
        } else {
            None
        },
        None => None,
    }
}

/// The position to store when the window is hidden, given its rectangle.
pub fn hide_main_window(rect: Option<ScreenRect>) -> (r: Option<PhysicalPos>)
    ensures
        r == position_to_store(rect),
{
    save_current_position(current_window_position(rect))
}

/// Whether the main window is visible, given what the shell reports for it
/// (`None` when the window was not found).
pub fn is_main_window_visible(visible_flag: Option<i32>) -> (r: bool)
    ensures
        r == (visible_flag matches Some(f) && f != 0),
{
    match visible_flag {
        Some(f) => f != 0,
        None => false,
    }
}

/// The left edge that centres a window of width `win_w` on a screen of width
/// `screen_w`, or 0 when the window is at least as wide as the screen.
pub open spec fn centered_left(screen_w: int, win_w: int) -> int {
    if screen_w > win_w {
        (screen_w - win_w) / 2
    } else {
        0
    }
}

/// The width of a window rectangle, at least one pixel.
pub open spec fn window_width(rect: ScreenRect) -> int {
    if rect.2 - rect.0 > 1 {
        rect.2 - rect.0
    } else {
        1
    }
}

/// Where the window goes when it is shown: the saved position when there is
/// one and it lies on a monitor; otherwise horizontally centred on the primary
/// screen, [`DEFAULT_TOP`] pixels from the top (when the window rectangle is
/// known; else it stays where it is and the result is `None`).
pub open spec fn show_target(
    saved: Option<PhysicalPos>,
    monitors: Seq<ScreenRect>,
    window_rect: Option<ScreenRect>,
    screen_width: i32,
) -> Option<PhysicalPos> {
    if saved matches Some(p) && on_some_monitor(p.x as int, p.y as int, monitors) {
        saved
    } else {
        match window_rect {
            Some(rc) => Some(
                PhysicalPos { x: centered_left(screen_width as int, window_width(rc)) as i32, y: DEFAULT_TOP },
            ),
            None => None,
        }
    }
}

/// Where to put the window when it is shown (see [`show_target`]).
pub fn show_main_window(
    saved: Option<PhysicalPos>,
    monitors: &[ScreenRect],
    window_rect: Option<ScreenRect>,
    screen_width: i32,
) -> (r: Option<PhysicalPos>)
    requires
        window_rect matches Some(rc) ==> i32::MIN <= rc.2 - rc.0 <= i32::MAX,
    ensures
        r == show_target(saved, monitors@, window_rect, screen_width),
{
    if let Some(p) = saved {
        if is_position_on_screen(p, monitors) {
            return Some(p);
        }
    }
    match window_rect {
        Some((left, _top, right, _bottom)) => {
            let d = right - left;
            let win_w = if d > 1 { d } else { 1 };
            let x = if screen_width > win_w {
                (screen_width - win_w) / 2
            } else {
                0
            };
            Some(PhysicalPos::new(x, DEFAULT_TOP))
        },
        None => None,
    }
}

/// `a / 2` rounded toward zero, as integer division does in Rust.
pub open spec fn half_toward_zero(a: int) -> int {
    if a >= 0 {
        a / 2
    } else {
        -((-a) / 2)
    }
}

/// Where a window of the given size opens on a monitor when no saved
/// position applies: horizontally centred on the monitor, [`DEFAULT_TOP`]
/// pixels below its top.
pub fn default_position(
    monitor_pos: PhysicalPos,
    monitor_width: u32,
    window_width: u32,
) -> (r: PhysicalPos)
    requires
        i32::MIN <= (monitor_width as i32) - (window_width as i32) <= i32::MAX,
        i32::MIN <= monitor_pos.x + half_toward_zero((monitor_width as i32) - (window_width as i32))
            <= i32::MAX,
        monitor_pos.y + DEFAULT_TOP <= i32::MAX,
    ensures
        r.x == monitor_pos.x + half_toward_zero((monitor_width as i32) - (window_width as i32)),
        r.y == monitor_pos.y + DEFAULT_TOP,
{
    let d = (monitor_width as i32) - (window_width as i32);
    let half = if d >= 0 {
        d / 2
    } else {
        -((-(d as i64)) / 2) as i32
    };
    PhysicalPos::new(monitor_pos.x + half, monitor_pos.y + DEFAULT_TOP)
}

/// A drag of the window by its search bar: where the pointer and the window
/// were when it started (physical pixels).
#[derive(Clone, Copy, Debug)]
pub struct DragState {
    pub mouse_start: PhysicalPos,
    pub window_start: PhysicalPos,
}

/// What a frame of pointer input asks of the window.
#[derive(Debug, PartialEq, Eq, Structural)]
pub enum DragAction {
    /// Nothing.
    Idle,
    /// Move the window to this position.
    Move(PhysicalPos),
    /// The drag ended: store the window position now.
    Save,
}

/// The pointer position on the screen: the window position plus the
/// pointer's offset inside the window.
pub open spec fn screen_point(win: PhysicalPos, offset: (i32, i32)) -> (int, int) {
    (win.x + offset.0, win.y + offset.1)
}

/// The drag that a press at `offset` starts when the window is at `win`.
pub open spec fn drag_started(win: PhysicalPos, offset: (i32, i32)) -> DragState {
    DragState {
        mouse_start: PhysicalPos {
            x: screen_point(win, offset).0 as i32,
            y: screen_point(win, offset).1 as i32,
        },
        window_start: win,
    }
}

/// Where the window goes during a drag: its start position moved by as much
/// as the pointer moved on the screen.
pub open spec fn dragged_to(d: DragState, win: PhysicalPos, offset: (i32, i32)) -> (int, int) {
    (
        d.window_start.x + (screen_point(win, offset).0 - d.mouse_start.x),
        d.window_start.y + (screen_point(win, offset).1 - d.mouse_start.y),
    )
}

/// Every sum and difference of a drag step fits in `i32`.
pub open spec fn fits_i32(v: int) -> bool {
    i32::MIN <= v <= i32::MAX
}

/// The arithmetic of moving the drag `d` stays within `i32`.
pub open spec fn move_fits(d: DragState, offset: (i32, i32), win: PhysicalPos) -> bool {
    let p = screen_point(win, offset);
    &&& fits_i32(p.0 - d.mouse_start.x) && fits_i32(p.1 - d.mouse_start.y)
    &&& fits_i32(dragged_to(d, win, offset).0) && fits_i32(dragged_to(d, win, offset).1)
}

/// The arithmetic of a drag step stays within `i32`, for the running drag
/// and for one that starts now.
pub open spec fn drag_step_fits(drag: Option<DragState>, offset: (i32, i32), win: PhysicalPos) -> bool {
    let p = screen_point(win, offset);
    &&& fits_i32(p.0) && fits_i32(p.1)
    &&& drag matches Some(d) ==> move_fits(d, offset, win)
    &&& move_fits(drag_started(win, offset), offset, win)
}

/// One frame of dragging the window by its search bar. While the primary
/// button is down and the pointer is known (`offset`, its position inside the
/// window in physical pixels): a press inside the search bar starts a drag
/// when none is running, and a running drag moves the window by as much as
/// the pointer moved since the drag started. When the button is released
/// during a drag, the drag ends and the position is to be stored.
pub fn handle_drag(
    drag: &mut Option<DragState>,
    pointer_down: bool,
    offset: Option<(i32, i32)>,
    in_search_bar: bool,
    window_pos: Option<PhysicalPos>,
) -> (r: DragAction)
    requires
        offset matches Some(o) && window_pos matches Some(w) ==> drag_step_fits(*old(drag), o, w),
    ensures
        !pointer_down ==> (*old(drag) is Some ==> *final(drag) is None && r == DragAction::Save) && (
        *old(drag) is None ==> *final(drag) is None && r == DragAction::Idle),
        pointer_down && offset is None ==> *final(drag) == *old(drag) && r == DragAction::Idle,
        pointer_down && offset is Some ==> {
            let o = offset->0;
            let started = *old(drag) is None && in_search_bar && window_pos is Some;
            &&& *final(drag) == (if started {
                Some(drag_started(window_pos->0, o))
            } else {
                *old(drag)
            })
            &&& r == match (*final(drag), window_pos) {
                (Some(d), Some(w)) => DragAction::Move(
                    PhysicalPos {
                        x: dragged_to(d, w, o).0 as i32,
                        y: dragged_to(d, w, o).1 as i32,
                    },
                ),
                _ => DragAction::Idle,
            }
        },
{
    if pointer_down {
        if let Some(off) = offset {
            if drag.is_none() && in_search_bar {
                if let Some(win) = window_pos {
                    let mouse = PhysicalPos::new(win.x + off.0, win.y + off.1);
                    *drag = Some(DragState { mouse_start: mouse, window_start: win });
                }
            }
            if let Some(d) = *drag {
                if let Some(win) = window_pos {
                    assert(drag_step_fits(*old(drag), off, win));
                    assert(*old(drag) == Some(d) || d == drag_started(win, off));
                    assert(move_fits(d, off, win));
                    let mouse = PhysicalPos::new(win.x + off.0, win.y + off.1);
                    let new_pos = PhysicalPos::new(
                        d.window_start.x + (mouse.x - d.mouse_start.x),
                        d.window_start.y + (mouse.y - d.mouse_start.y),
                    );
                    return DragAction::Move(new_pos);
                }
            }
        }
        DragAction::Idle
    } else if drag.is_some() {
        *drag = None;
        DragAction::Save
    } else {
        DragAction::Idle
    }
}

/// A window hidden on a monitor comes back where it was: the position stored
/// when hiding is the one showing restores, as long as it lies on a monitor.
pub proof fn lemma_hide_then_show_restores(
    rect: Option<ScreenRect>,
    monitors: Seq<ScreenRect>,
    window_rect: Option<ScreenRect>,
    screen_width: i32,
)
    requires
        position_to_store(rect) matches Some(p) && on_some_monitor(p.x as int, p.y as int, monitors),
    ensures
        show_target(position_to_store(rect), monitors, window_rect, screen_width) == position_to_store(rect),
{
}

/// Stored positions are always worth keeping.
pub proof fn lemma_stored_positions_valid(rect: Option<ScreenRect>)
    ensures
        position_to_store(rect) matches Some(p) ==> valid_position(p.x as int, p.y as int),
{
}

/// The window lands within the screen's width when it is centred: its left
/// edge is never negative, and the window fits when it is narrower.
pub proof fn lemma_centered_within_screen(screen_w: int, win_w: int)
    requires
        win_w >= 1,
    ensures
        centered_left(screen_w, win_w) >= 0,
        screen_w > win_w ==> centered_left(screen_w, win_w) + win_w <= screen_w,
{
}

/// Starting a drag does not move the window: the first step of a new drag
/// puts the window where it already is.
pub proof fn lemma_drag_start_keeps_window(win: PhysicalPos, offset: (i32, i32))
    requires
        fits_i32(screen_point(win, offset).0),
        fits_i32(screen_point(win, offset).1),
    ensures
        dragged_to(drag_started(win, offset), win, offset) == (win.x as int, win.y as int),
{
}

/// The window follows the pointer across the screen: a drag started with the
/// window at `w0` and the pointer at offset `o0` inside it moves the window,
/// at any later step (window at `w`, pointer at offset `o`), to `w0` plus how
/// far the pointer's screen point moved from `w0 + o0` to `w + o`.
pub proof fn lemma_drag_follows_pointer(w0: PhysicalPos, o0: (i32, i32), w: PhysicalPos, o: (i32, i32))
    requires
        fits_i32(w0.x + o0.0),
        fits_i32(w0.y + o0.1),
    ensures
        dragged_to(drag_started(w0, o0), w, o) == (
            w0.x + ((w.x + o.0) - (w0.x + o0.0)),
            w0.y + ((w.y + o.1) - (w0.y + o0.1)),
        ),
{
}

/// A drag step depends on the pointer only through its screen point: two
/// steps of the same drag whose window position plus pointer offset agree
/// move the window to the same place.
pub proof fn lemma_drag_depends_on_screen_point(
    d: DragState,
    w1: PhysicalPos,
    o1: (i32, i32),
    w2: PhysicalPos,
    o2: (i32, i32),
)
    requires
        w1.x + o1.0 == w2.x + o2.0,
        w1.y + o1.1 == w2.y + o2.1,
    ensures
        dragged_to(d, w1, o1) == dragged_to(d, w2, o2),
{
}

} // verus!
