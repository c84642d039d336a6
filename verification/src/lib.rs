//! NeuroArena's presentation core: the parts of the window, the renderer and
//! the panels that decide things, proved against their contracts — the input
//! rules of the control strip, the glyph atlas, the status line's wrapping, the
//! bloom chain, the Cohort's record, the bookkeeping of the Arena's light, and
//! the deep field, baked bit for bit in single precision. What measures in
//! floating point on the screen, talks to the GPU or owns the window lives in
//! the application around this library.

pub mod appstate;
pub mod atlas;
pub mod binary32;
pub mod bits;
pub mod chars;
pub mod cohort;
pub mod deepfield;
pub mod effects;
pub mod gpu;
pub mod painter;
pub mod panels;
pub mod renderer;
pub mod scene;
pub mod text;
pub mod ui;
