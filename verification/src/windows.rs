//! The single escape hatch for optional detached windows.
//!
//! A browser host has exactly one document-owned window; native hosts may open
//! more. Which of the two the program was built for is a fact of the build
//! that the host reads and hands in.

use vstd::prelude::*;

verus! {

/// What the platform offers for windows of the editor.
#[derive(Clone, Copy, Debug, PartialEq, Eq, Structural)]
pub struct WindowCapabilities {
    pub detached_windows: bool,
}

impl WindowCapabilities {
    /// Capabilities of the running target: detached windows exist everywhere
    /// except in the browser.
    pub fn current(browser_target: bool) -> (r: Self)
        ensures
            r.detached_windows == !browser_target,
    {
        WindowCapabilities { detached_windows: !browser_target }
    }
}

/// Why a detached window could not be opened.
#[derive(Clone, Debug, PartialEq, Eq)]
pub enum DetachedWindowError {
    UnavailableInBrowser,
    Platform(String),
}

/// The sole gateway to optional desktop-only detached windows.
pub struct PlatformWindowService;

impl PlatformWindowService {
    /// The capabilities of the platform the editor runs on.
    pub fn capabilities(&self, browser_target: bool) -> (r: WindowCapabilities)
        ensures
            r == WindowCapabilities::current_spec(browser_target),
    {
        WindowCapabilities::current(browser_target)
    }

    /// The refusal that a request for a detached window meets before any
    /// platform call: only the browser refuses outright.
    pub fn refusal(&self, browser_target: bool) -> (r: Option<DetachedWindowError>)
        ensures
            r == (if browser_target {
                Some(DetachedWindowError::UnavailableInBrowser)
            } else {
                None
            }),
    {
        if browser_target {
            Some(DetachedWindowError::UnavailableInBrowser)
        } else {
            None
        }
    }
}

impl WindowCapabilities {
    pub open spec fn current_spec(browser_target: bool) -> WindowCapabilities {
        WindowCapabilities { detached_windows: !browser_target }
    }
}

} // verus!
