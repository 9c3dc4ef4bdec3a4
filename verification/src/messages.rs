//! What a window does about the messages it receives.

use vstd::prelude::*;

verus! {

/// The window is being destroyed.
pub const WM_DESTROY: u32 = 0x0002;

/// The window is asked to paint itself.
pub const WM_PAINT: u32 = 0x000f;

/// The application is asked to end.
pub const WM_QUIT: u32 = 0x0012;

/// The window is about to be created.
pub const WM_NCCREATE: u32 = 0x0081;

/// First of the messages that an application may define; the overlay posts
/// it to leave the message loop without ending the application.
pub const WM_USER: u32 = 0x0400;

/// What a window does about a message.
#[derive(Debug, Clone, Copy, PartialEq, Eq, Structural)]
pub enum MessageAction {
    /// Post the request to end the application.
    Quit,
    /// Paint the window.
    Paint,
    /// Leave the message to the system.
    Default,
}

/// What a window does about `message`: it asks the application to end when
/// it is destroyed, paints when asked to, and leaves the rest to the
/// system.
pub fn action_for(message: u32) -> (action: MessageAction)
    ensures
        action == (if message == WM_DESTROY {
            MessageAction::Quit
        } else if message == WM_PAINT {
            MessageAction::Paint
        } else {
            MessageAction::Default
        }),
{
    if message == WM_DESTROY {
        MessageAction::Quit
    } else if message == WM_PAINT {
        MessageAction::Paint
    } else {
        MessageAction::Default
    }
}

/// Whether `message` ends the message loop of a window.
pub fn ends_run(message: u32) -> (ends: bool)
    ensures
        ends == (message == WM_QUIT || message == WM_USER),
{
    message == WM_QUIT || message == WM_USER
}

/// Whether `message` is the one with which a window that is being created
/// is handed to its procedure.
pub fn binds_window(message: u32) -> (binds: bool)
    ensures
        binds == (message == WM_NCCREATE),
{
    message == WM_NCCREATE
}

} // verus!
