//! How the editor window treats the mouse cursor.
use vstd::prelude::*;

verus! {

/// Whether the cursor controls the camera or is free to point at things.
#[derive(Debug, Clone, Copy, PartialEq, Eq, Structural)]
pub enum WindowMode {
    CameraMode,
    CursorMode,
}

} // verus!
