use vstd::prelude::*;

pub mod color;
pub mod event;
pub mod keymap;
pub mod raster;
pub mod renderer;
pub mod state_stack;

pub use color::Color;
pub use event::{
    ButtonEvent, Event, EventOption, FocusEvent, KeyEvent, ModKeys, MouseEvent, MoveEvent, QuitEvent,
    ResizeEvent, ScreenEvent, ScrollEvent,
};
pub use keymap::{to_char, Keymap};
pub use renderer::ImageMask;
pub use state_stack::StateStack;

verus! {

/// Window options.
#[derive(Clone, Copy, Debug)]
pub enum WindowFlag {
    Async,
    Back,
    Front,
    Borderless,
    Resizable,
    Transparent,
    Unclosable,
}

/// Whether an edge of a path is drawn.
#[derive(Copy, Clone, Debug)]
pub enum EdgeType {
    Visible,
    Hidden,
}

/// How new pixels meet old ones.
#[derive(Clone, Copy, Debug)]
pub enum Mode {
    /// Composite
    Blend,
    /// Replace
    Overwrite,
}

} // verus!
