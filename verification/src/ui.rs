//! The state of the search window between frames: what the keys of a frame
//! do, the icons asked for, the height of the visible content, the reaction
//! to the global hotkey, and the colour theme.

use vstd::prelude::*;

verus! {

/// Height of the search bar (logical pixels).
pub const BASE_HEIGHT: u32 = 56;

/// Height of one result row.
pub const ITEM_HEIGHT: u32 = 44;

/// Gap between the search bar and the results.
pub const LIST_GAP: u32 = 8;

/// The most result rows shown.
pub const MAX_ITEMS: usize = 8;

/// Fixed window height: search bar, gap and the full result area.
pub const MAX_WINDOW_HEIGHT: u32 = 416;

/// The height of the visible content for `result_count` results: the search
/// bar alone when there are none, else the bar, the gap and one row per result
/// (at most [`MAX_ITEMS`] rows).
pub open spec fn content_height_of(result_count: int) -> int {
    if result_count > 0 {
        BASE_HEIGHT + LIST_GAP + (if result_count < MAX_ITEMS { result_count } else {
            MAX_ITEMS as int
        }) * ITEM_HEIGHT
    } else {
        BASE_HEIGHT as int
    }
}

/// The height of the visible content (logical pixels) for `result_count`
/// results; the window region is clipped to it.
pub fn content_height(result_count: usize) -> (r: u32)
    ensures
        r == content_height_of(result_count as int),
        r <= MAX_WINDOW_HEIGHT,
{
    if result_count > 0 {
        let rows: u32 = if result_count < MAX_ITEMS {
            result_count as u32
        } else {
            MAX_ITEMS as u32
        };
        BASE_HEIGHT + LIST_GAP + rows * ITEM_HEIGHT
    } else {
        BASE_HEIGHT
    }
}

/// The selection after the Down key: the next result, wrapping to the first.
pub fn select_next(selected: usize, count: usize) -> (r: usize)
    requires
        count > 0,
        selected < usize::MAX,
    ensures
        r == (selected + 1) % (count as int),
        r < count,
{
    (selected + 1) % count
}

/// The selection after the Up key: the previous result, wrapping to the last.
pub fn select_prev(selected: usize, count: usize) -> (r: usize)
    requires
        count > 0,
        selected + count <= usize::MAX,
    ensures
        r == (selected + count - 1) % (count as int),
        r < count,
{
    (selected + count - 1) % count
}

/// Moving the selection down and then up (or up and then down) returns to
/// the same result.
pub proof fn lemma_selection_round_trip(selected: int, count: int)
    requires
        0 <= selected < count,
    ensures
        ((selected + 1) % count + count - 1) % count == selected,
        ((selected + count - 1) % count + 1) % count == selected,
{
    let c = count;
    let s = selected;
    if s + 1 < c {
        assert((s + 1) % c == s + 1) by (nonlinear_arith)
            requires
                0 <= s + 1 < c,
        ;
        assert((s + 1 + c - 1) % c == s) by (nonlinear_arith)
            requires
                0 <= s < c,
        ;
    } else {
        assert((s + 1) % c == 0) by (nonlinear_arith)
            requires
                s + 1 == c,
                c > 0,
        ;
        assert((0 + c - 1) % c == s) by (nonlinear_arith)
            requires
                s == c - 1,
                c > 0,
        ;
    }
    if s > 0 {
        assert((s + c - 1) % c == s - 1) by (nonlinear_arith)
            requires
                0 < s < c,
        ;
        assert((s - 1 + 1) % c == s) by (nonlinear_arith)
            requires
                0 <= s < c,
        ;
    } else {
        assert((s + c - 1) % c == c - 1) by (nonlinear_arith)
            requires
                s == 0,
                c > 0,
        ;
        assert((c - 1 + 1) % c == 0) by (nonlinear_arith)
            requires
                c > 0,
        ;
    }
}

/// The keys pressed during one frame of the search window.
#[derive(Clone, Copy, Debug)]
pub struct KeyPresses {
    pub down: bool,
    pub up: bool,
    pub enter: bool,
    pub escape: bool,
}

/// What a frame's keys do: the new selection, the result to launch (by
/// position), whether the query is cleared and whether the window hides.
#[derive(Clone, Copy, Debug)]
pub struct KeyOutcome {
    pub selected: usize,
    pub launch: Option<usize>,
    pub clear_query: bool,
    pub hide: bool,
}

/// The selection after the arrow keys of one frame: Down first, then Up,
/// each wrapping; unchanged when there are no results.
pub open spec fn selection_after(selected: int, count: int, keys: KeyPresses) -> int {
    if count > 0 {
        let after_down = if keys.down {
            (selected + 1) % count
        } else {
            selected
        };
        if keys.up {
            (after_down + count - 1) % count
        } else {
            after_down
        }
    } else {
        selected
    }
}

/// The selection after the Down key alone, where Down applies.
pub open spec fn selection_after_down(selected: int, count: int, keys: KeyPresses) -> int {
    if count > 0 && keys.down {
        (selected + 1) % count
    } else {
        selected
    }
}

/// Reacts to the keys of one frame. A hidden window ignores them. Otherwise,
/// with results on screen, Down and Up move the selection and Enter launches
/// the selected result if it is on the list; Escape hides the window. A
/// launch clears the query and hides the window too.
pub fn key_step(selected: usize, count: usize, visible: bool, keys: KeyPresses) -> (r: KeyOutcome)
    requires
        visible && count > 0 && keys.down ==> selected < usize::MAX,
        visible && count > 0 && keys.up ==> selection_after_down(selected as int, count as int, keys)
            + count <= usize::MAX,
    ensures
        !visible ==> r.selected == selected && r.launch is None && !r.clear_query && !r.hide,
        visible ==> r.selected == selection_after(selected as int, count as int, keys),
        visible ==> r.launch == (if count > 0 && keys.enter && r.selected < count {
            Some(r.selected)
        } else {
            None::<usize>
        }),
        visible ==> r.clear_query == r.launch is Some,
        visible ==> r.hide == (keys.escape || r.launch is Some),
        r.launch matches Some(i) ==> i < count,
{
    if !visible {
        return KeyOutcome { selected, launch: None, clear_query: false, hide: false };
    }
    let mut sel = selected;
    let mut launch: Option<usize> = None;
    if count > 0 {
        if keys.down {
            sel = select_next(sel, count);
        }
        if keys.up {
            sel = select_prev(sel, count);
        }
        if keys.enter && sel < count {
            launch = Some(sel);
        }
    }
    let launched = launch.is_some();
    KeyOutcome { selected: sel, launch, clear_query: launched, hide: keys.escape || launched }
}

/// What the background loop does with the window when the hotkey is pressed.
#[derive(Debug, PartialEq, Eq, Structural)]
pub enum WindowCommand {
    /// Hide the window (saving its position).
    Hide,
    /// Show the window, restore its position and reset the query.
    Show,
}

/// The hotkey toggles the window: a visible window hides, a hidden one shows.
pub fn hotkey_command(visible: bool) -> (r: WindowCommand)
    ensures
        r == (if visible {
            WindowCommand::Hide
        } else {
            WindowCommand::Show
        }),
{
    if visible {
        WindowCommand::Hide
    } else {
        WindowCommand::Show
    }
}

/// An 8-bit colour with straight (unmultiplied) alpha.
#[derive(Clone, Copy, Debug, PartialEq, Eq, Structural)]
pub struct Rgba {
    pub r: u8,
    pub g: u8,
    pub b: u8,
    pub a: u8,
}

/// An opaque colour.
pub open spec fn opaque(r: u8, g: u8, b: u8) -> Rgba {
    Rgba { r, g, b, a: 255 }
}

/// The colours of the interface.
#[derive(Clone, Copy, Debug, PartialEq, Eq, Structural)]
pub struct ThemeColors {
    /// Window background.
    pub bg: Rgba,
    /// Window outline.
    pub border: Rgba,
    /// Background of the selected row.
    pub selected: Rgba,
    /// Main text (application names).
    pub text: Rgba,
    /// Secondary text (application paths).
    pub text_secondary: Rgba,
}

/// The light theme.
pub open spec fn light_theme() -> ThemeColors {
    ThemeColors {
        bg: opaque(255, 255, 255),
        border: Rgba { r: 0, g: 0, b: 0, a: 26 },
        selected: Rgba { r: 0, g: 113, b: 227, a: 31 },
        text: opaque(0x1a, 0x1a, 0x1a),
        text_secondary: opaque(0x88, 0x88, 0x88),
    }
}

/// The dark theme.
pub open spec fn dark_theme() -> ThemeColors {
    ThemeColors {
        bg: opaque(40, 40, 42),
        border: Rgba { r: 255, g: 255, b: 255, a: 31 },
        selected: Rgba { r: 100, g: 168, b: 255, a: 51 },
        text: opaque(0xe5, 0xe5, 0xe7),
        text_secondary: opaque(0x88, 0x88, 0x88),
    }
}

impl ThemeColors {
    /// The light colours.
    pub fn light() -> (r: Self)
        ensures
            r == light_theme(),
    {
        ThemeColors {
            bg: Rgba { r: 255, g: 255, b: 255, a: 255 },
            border: Rgba { r: 0, g: 0, b: 0, a: 26 },
            selected: Rgba { r: 0, g: 113, b: 227, a: 31 },
            text: Rgba { r: 0x1a, g: 0x1a, b: 0x1a, a: 255 },
            text_secondary: Rgba { r: 0x88, g: 0x88, b: 0x88, a: 255 },
        }
    }

    /// The dark colours.
    pub fn dark() -> (r: Self)
        ensures
            r == dark_theme(),
    {
        ThemeColors {
            bg: Rgba { r: 40, g: 40, b: 42, a: 255 },
            border: Rgba { r: 255, g: 255, b: 255, a: 31 },
            selected: Rgba { r: 100, g: 168, b: 255, a: 51 },
            text: Rgba { r: 0xe5, g: 0xe5, b: 0xe7, a: 255 },
            text_secondary: Rgba { r: 0x88, g: 0x88, b: 0x88, a: 255 },
        }
    }

    /// The colours for a dark or a light system appearance.
    pub fn pick(dark: bool) -> (r: Self)
        ensures
            r == (if dark {
                dark_theme()
            } else {
                light_theme()
            }),
    {
        if dark {
            Self::dark()
        } else {
            Self::light()
        }
    }
}

/// The paths of a batch that are new: those neither in `known` nor earlier in
/// the batch, in batch order.
pub open spec fn fresh_paths(known: Seq<Seq<char>>, batch: Seq<Seq<char>>) -> Seq<Seq<char>>
    decreases batch.len(),
{
    if batch.len() == 0 {
        seq![]
    } else {
        let prev = fresh_paths(known, batch.drop_last());
        let p = batch.last();
        if known.contains(p) || batch.drop_last().contains(p) {
            prev
        } else {
            prev.push(p)
        }
    }
}

/// The characters of each path of a batch.
pub open spec fn batch_view(paths: Seq<&str>) -> Seq<Seq<char>> {
    paths.map_values(|p: &str| p@)
}

/// The icon paths the window has asked for, in the order it asked. A path is
/// asked for once; its icon then stays with the window.
pub struct IconRequests {
    requested: Vec<String>,
}

impl View for IconRequests {
    type V = Seq<Seq<char>>;

    closed spec fn view(&self) -> Seq<Seq<char>> {
        self.requested@.map_values(|s: String| s@)
    }
}

impl IconRequests {
    /// No path asked for yet.
    pub fn new() -> (r: Self)
        ensures
            r@ == Seq::<Seq<char>>::empty(),
    {
        let r = IconRequests { requested: Vec::new() };
        assert(r@ =~= Seq::<Seq<char>>::empty());
        r
    }

    /// Whether the icon of `path` has been asked for.
    pub fn contains(&self, path: &str) -> (r: bool)
        ensures
            r == self@.contains(path@),
    {
        let key = path.to_owned();
        let mut j: usize = 0;
        while j < self.requested.len()
            invariant
                key@ == path@,
                j <= self.requested.len(),
                forall|k: int| 0 <= k < j ==> (#[trigger] self.requested@[k])@ != path@,
            decreases self.requested.len() - j,
        {
            if self.requested[j] == key {
                assert(self@[j as int] == path@);
                return true;
            }
            j += 1;
        }
        assert(!self@.contains(path@)) by {
            if self@.contains(path@) {
                let k = choose|k: int| 0 <= k < self@.len() && self@[k] == path@;
                assert(self.requested@[k]@ == path@);
            }
        }
        false
    }

    /// Asks for the icons of a batch of paths: returns the paths not asked for
    /// before (each once, in batch order) and remembers them.
    pub fn request(&mut self, paths: &[&str]) -> (r: Vec<String>)
        ensures
            r@.map_values(|s: String| s@) == fresh_paths(old(self)@, batch_view(paths@)),
            final(self)@ == old(self)@ + fresh_paths(old(self)@, batch_view(paths@)),
    {
        let ghost known = self@;
        let ghost batch = batch_view(paths@);
        let mut out: Vec<String> = Vec::new();
        let mut i: usize = 0;
        while i < paths.len()
            invariant
                i <= paths.len(),
                batch == batch_view(paths@),
                batch.len() == paths@.len(),
                out@.map_values(|s: String| s@) == fresh_paths(known, batch.take(i as int)),
                self@ == known + fresh_paths(known, batch.take(i as int)),
                forall|p: Seq<char>|
                    #[trigger] self@.contains(p) <==> known.contains(p) || batch.take(i as int).contains(p),
            decreases paths.len() - i,
        {
            let p = paths[i];
            let ghost prev_view = self@;
            let ghost pre = batch.take(i as int);
            let ghost next = batch.take(i + 1);
            assert(next.drop_last() =~= pre);
            assert(next.last() == p@);
            if !self.contains(p) {
                let s = p.to_owned();
                let ghost before = self.requested@;
                out.push(s.clone());
                self.requested.push(s);
                proof {
                    assert(self.requested@ == before.push(s));
                    assert(self@ =~= (known + fresh_paths(known, pre)).push(p@));
                    assert(!known.contains(p@) && !pre.contains(p@));
                    assert(fresh_paths(known, next) == fresh_paths(known, pre).push(p@));
                    assert(out@.map_values(|s: String| s@) =~= fresh_paths(known, pre).push(p@));
                    assert(self@ =~= known + fresh_paths(known, next));
                    assert forall|q: Seq<char>| #[trigger] self@.contains(q) <==> known.contains(q)
                        || next.contains(q) by {
                        if self@.contains(q) {
                            let k = choose|k: int| 0 <= k < self@.len() && self@[k] == q;
                            if k < prev_view.len() {
                                assert(prev_view[k] == q);
                                assert(prev_view.contains(q));
                                if pre.contains(q) {
                                    let m = choose|m: int| 0 <= m < pre.len() && pre[m] == q;
                                    assert(next[m] == q);
                                }
                            } else {
                                assert(next[i as int] == q);
                            }
                        }
                        if known.contains(q) || next.contains(q) {
                            if next.contains(q) && !known.contains(q) {
                                let m = choose|m: int| 0 <= m < next.len() && next[m] == q;
                                if m < i {
                                    assert(pre[m] == q);
                                    assert(prev_view.contains(q));
                                    let k = choose|k: int| 0 <= k < prev_view.len() && prev_view[k] == q;
                                    assert(self@[k] == q);
                                } else {
                                    assert(self@[self@.len() - 1] == q);
                                }
                            } else {
                                assert(prev_view.contains(q));
                                let k = choose|k: int| 0 <= k < prev_view.len() && prev_view[k] == q;
                                assert(self@[k] == q);
                            }
                        }
                    }
                }
            } else {
                proof {
                    assert(fresh_paths(known, next) == fresh_paths(known, pre));
                    assert forall|q: Seq<char>| #[trigger] self@.contains(q) <==> known.contains(q)
                        || next.contains(q) by {
                        if next.contains(q) && q != p@ {
                            let k = choose|k: int| 0 <= k < next.len() && next[k] == q;
                            assert(k < i);
                            assert(pre[k] == q);
                        }
                        if pre.contains(q) {
                            let k = choose|k: int| 0 <= k < pre.len() && pre[k] == q;
                            assert(next[k] == q);
                        }
                    }
                }
            }
            i += 1;
        }
        assert(batch.take(paths.len() as int) =~= batch);
        out
    }
}

/// Each path is asked for at most once: the new paths of a batch are not
/// among those asked for before, and none comes twice.
pub proof fn lemma_paths_requested_once(known: Seq<Seq<char>>, batch: Seq<Seq<char>>)
    ensures
        forall|i: int| 0 <= i < fresh_paths(known, batch).len() ==> !known.contains(
            #[trigger] fresh_paths(known, batch)[i],
        ),
        fresh_paths(known, batch).no_duplicates(),
        forall|i: int| 0 <= i < fresh_paths(known, batch).len() ==> batch.contains(
            #[trigger] fresh_paths(known, batch)[i],
        ),
    decreases batch.len(),
{
    if batch.len() > 0 {
        let prefix = batch.drop_last();
        lemma_paths_requested_once(known, prefix);
        let prev = fresh_paths(known, prefix);
        let f = fresh_paths(known, batch);
        assert forall|i: int| 0 <= i < f.len() implies batch.contains(#[trigger] f[i]) by {
            if i < prev.len() {
                assert(f[i] == prev[i]);
                let k = choose|k: int| 0 <= k < prefix.len() && prefix[k] == prev[i];
                assert(batch[k] == prefix[k]);
            } else {
                assert(batch[batch.len() - 1] == f[i]);
            }
        }
        if !(known.contains(batch.last()) || prefix.contains(batch.last())) {
            assert forall|i: int, j: int| 0 <= i < j < f.len() implies f[i] != f[j] by {
                if j == f.len() - 1 && i < prev.len() {
                    assert(prefix.contains(prev[i]));
                }
            }
        }
    }
}

/// The arrow keys move the selection by one result and wrap around: Down
/// goes to the next result or from the last to the first, Up to the previous
/// one or from the first to the last, and both together stay put.
pub proof fn lemma_arrows_move_by_one(selected: int, count: int, keys: KeyPresses)
    requires
        0 <= selected < count,
    ensures
        keys.down && !keys.up ==> selection_after(selected, count, keys) == (if selected + 1 == count {
            0
        } else {
            selected + 1
        }),
        keys.up && !keys.down ==> selection_after(selected, count, keys) == (if selected == 0 {
            count - 1
        } else {
            selected - 1
        }),
        keys.up && keys.down ==> selection_after(selected, count, keys) == selected,
        !keys.up && !keys.down ==> selection_after(selected, count, keys) == selected,
        0 <= selection_after(selected, count, keys) < count,
{
    lemma_selection_round_trip(selected, count);
    let s = selected;
    let c = count;
    if s + 1 < c {
        assert((s + 1) % c == s + 1) by (nonlinear_arith)
            requires
                0 <= s + 1 < c,
        ;
    } else {
        assert((s + 1) % c == 0) by (nonlinear_arith)
            requires
                s + 1 == c,
                c > 0,
        ;
    }
    if s > 0 {
        assert((s + c - 1) % c == s - 1) by (nonlinear_arith)
            requires
                0 < s < c,
        ;
    } else {
        assert((s + c - 1) % c == c - 1) by (nonlinear_arith)
            requires
                s == 0,
                c > 0,
        ;
    }
}

/// The visible height in logical pixels: 56 for the search bar alone, else
/// 56 + 8 + 44 per result row, with at most eight rows (416 in all).
pub proof fn lemma_content_height_values(n: int)
    requires
        n >= 0,
    ensures
        n == 0 ==> content_height_of(n) == 56,
        0 < n <= 8 ==> content_height_of(n) == 64 + 44 * n,
        n >= 8 ==> content_height_of(n) == 416,
        content_height_of(n) <= 416,
{
}

} // verus!
