//! Where the main window was, and whether it can be put there again.
use vstd::prelude::*;

verus! {

/// The place and the size of a window as they are kept.
#[derive(Debug, Clone, Copy)]
pub struct StoredWindowState {
    pub x: i32,
    pub y: i32,
    pub width: u32,
    pub height: u32,
}

/// The place and the size of a window or a monitor.
#[derive(Debug, Clone, Copy)]
pub struct WindowStateBounds {
    pub x: i32,
    pub y: i32,
    pub width: u32,
    pub height: u32,
}

/// Whether a size is neither too small nor too large for the window.
pub open spec fn is_reasonable(state: StoredWindowState) -> bool {
    1040 <= state.width <= 20000 && 700 <= state.height <= 20000
}

pub fn stored_window_state_is_reasonable(state: &StoredWindowState) -> (r: bool)
    ensures
        r == is_reasonable(*state),
{
    state.width >= 1040 && state.height >= 700 && state.width <= 20000 && state.height <= 20000
}

/// Whether a point of the plane lies inside a rectangle or on its upper or left edge.
pub open spec fn covers(b: WindowStateBounds, x: int, y: int) -> bool {
    b.x <= x < b.x + b.width && b.y <= y < b.y + b.height
}

/// Whether two rectangles overlap.
pub open spec fn overlap(a: WindowStateBounds, b: WindowStateBounds) -> bool {
    a.x < b.x + b.width && a.x + a.width > b.x && a.y < b.y + b.height && a.y + a.height > b.y
}

pub fn rectangles_intersect(a: WindowStateBounds, b: WindowStateBounds) -> (r: bool)
    ensures
        r == overlap(a, b),
{
    let a_left: i64 = a.x as i64;
    let a_top: i64 = a.y as i64;
    let a_right: i64 = a_left + a.width as i64;
    let a_bottom: i64 = a_top + a.height as i64;
    let b_left: i64 = b.x as i64;
    let b_top: i64 = b.y as i64;
    let b_right: i64 = b_left + b.width as i64;
    let b_bottom: i64 = b_top + b.height as i64;
    a_left < b_right && a_right > b_left && a_top < b_bottom && a_bottom > b_top
}

pub fn window_state_intersects_any_monitor(
    window: WindowStateBounds,
    monitors: &[WindowStateBounds],
) -> (r: bool)
    ensures
        r == exists|i: int| 0 <= i < monitors@.len() && overlap(window, #[trigger] monitors@[i]),
{
    let mut i: usize = 0;
    while i < monitors.len()
        invariant
            i <= monitors@.len(),
            forall|k: int| 0 <= k < i ==> !overlap(window, #[trigger] monitors@[k]),
        decreases monitors@.len() - i,
    {
        if rectangles_intersect(window, monitors[i]) {
            return true;
        }
        i += 1;
    }
    false
}

/// Whether the window is put where it was: its size is reasonable, and it would be seen on one of
/// the monitors, where they are known.
pub fn can_restore_window(state: &StoredWindowState, monitors: &[WindowStateBounds]) -> (r: bool)
    ensures
        r == (is_reasonable(*state) && (monitors@.len() == 0 || exists|i: int|
            0 <= i < monitors@.len() && overlap(
                (WindowStateBounds {
                    x: state.x,
                    y: state.y,
                    width: state.width,
                    height: state.height,
                }),
                #[trigger] monitors@[i],
            ))),
{
    let bounds = WindowStateBounds {
        x: state.x,
        y: state.y,
        width: state.width,
        height: state.height,
    };
    stored_window_state_is_reasonable(state) && (monitors.len() == 0
        || window_state_intersects_any_monitor(bounds, monitors))
}

// ---- laws -----------------------------------------------------------------------------------
/// Two rectangles that are not empty overlap exactly where some point lies in both.
pub proof fn law_overlap_is_a_shared_point(a: WindowStateBounds, b: WindowStateBounds)
    requires
        a.width > 0 && a.height > 0 && b.width > 0 && b.height > 0,
    ensures
        overlap(a, b) <==> exists|x: int, y: int| #[trigger] covers(a, x, y) && covers(b, x, y),
{
    if overlap(a, b) {
        let x = if a.x < b.x {
            b.x as int
        } else {
            a.x as int
        };
        let y = if a.y < b.y {
            b.y as int
        } else {
            a.y as int
        };
        assert(covers(a, x, y) && covers(b, x, y));
    }
}

/// It makes no difference which of two rectangles comes first.
pub proof fn law_overlap_is_symmetric(a: WindowStateBounds, b: WindowStateBounds)
    ensures
        overlap(a, b) == overlap(b, a),
{
}

} // verus!
