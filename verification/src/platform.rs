//! What differs between platforms, and the size of the window.

use vstd::prelude::*;

verus! {

/// The width of the window at the start, in pixels.
pub const INITIAL_WINDOW_WIDTH: u32 = 1000;

/// The height of the window at the start, in pixels.
pub const INITIAL_WINDOW_HEIGHT: u32 = 650;

/// The least width of the window, in pixels.
pub const MIN_WINDOW_WIDTH: u32 = 760;

/// The least height of the window, in pixels.
pub const MIN_WINDOW_HEIGHT: u32 = 480;

/// The width and height of the window at the start.
pub fn initial_window_size() -> (r: (u32, u32))
    ensures
        r == (INITIAL_WINDOW_WIDTH, INITIAL_WINDOW_HEIGHT),
{
    (INITIAL_WINDOW_WIDTH, INITIAL_WINDOW_HEIGHT)
}

/// How the window is made.
pub struct WindowOptions {
    pub title: &'static str,
    pub app_id: &'static str,
    pub size: (u32, u32),
    pub min_size: (u32, u32),
    /// The title bar is drawn by the application, so that the native one stays away.
    pub transparent_title_bar: bool,
    pub client_decorations: bool,
    pub movable: bool,
}

/// How the window is made: with its own title bar, at the size of the start, which is not below
/// the least one.
pub fn window_options() -> (r: WindowOptions)
    ensures
        r.title@ == "logd"@,
        r.app_id@ == "com.github.965962591.logd"@,
        r.size == (INITIAL_WINDOW_WIDTH, INITIAL_WINDOW_HEIGHT),
        r.min_size == (MIN_WINDOW_WIDTH, MIN_WINDOW_HEIGHT),
        r.min_size.0 <= r.size.0,
        r.min_size.1 <= r.size.1,
        r.transparent_title_bar,
        r.client_decorations,
        r.movable,
{
    WindowOptions {
        title: "logd",
        app_id: "com.github.965962591.logd",
        size: initial_window_size(),
        min_size: (MIN_WINDOW_WIDTH, MIN_WINDOW_HEIGHT),
        transparent_title_bar: true,
        client_decorations: true,
        movable: true,
    }
}

/// Whether the modifier that commands take is held down: the platform key on macOS, the control
/// key elsewhere.
pub fn primary_modifier(macos: bool, platform: bool, control: bool) -> (r: bool)
    ensures
        r == if macos {
            platform
        } else {
            control
        },
{
    if macos {
        platform
    } else {
        control
    }
}

} // verus!
