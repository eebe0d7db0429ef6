//! Decisions a runner takes before it opens its window.
use vstd::prelude::*;

verus! {

/// How the window covers the screen.
#[derive(Clone, Copy, Debug, PartialEq, Eq, Structural)]
pub enum WindowDim {
    /// A window of this width and height.
    Windowed(u32, u32),
    /// Full screen at the screen's own size.
    Fullscreen,
    /// Full screen at this width and height.
    FullscreenRestricted(u32, u32),
}

/// The window to open: the requested size where given, else the default;
/// full screen keeps a size only when both width and height were requested.
pub fn window_dim(width: Option<u32>, height: Option<u32>, def_width: u32, def_height: u32, fullscreen: bool) -> (r: WindowDim)
    ensures
        ({
            let w = match width { Some(w) => w, None => def_width };
            let h = match height { Some(h) => h, None => def_height };
            r == if !fullscreen {
                WindowDim::Windowed(w, h)
            } else if width is Some && height is Some {
                WindowDim::FullscreenRestricted(w, h)
            } else {
                WindowDim::Fullscreen
            }
        }),
{
    let w = match width {
        Some(w) => w,
        None => def_width,
    };
    let h = match height {
        Some(h) => h,
        None => def_height,
    };
    if fullscreen {
        if width.is_some() && height.is_some() {
            WindowDim::FullscreenRestricted(w, h)
        } else {
            WindowDim::Fullscreen
        }
    } else {
        WindowDim::Windowed(w, h)
    }
}

} // verus!
