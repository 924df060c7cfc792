//! Core of a desktop 3D scene editor: the skeletal joint-hierarchy editor
//! (reparenting with cycle detection and world-position recomputation), the
//! per-frame render-command planner with its fixed draw order, the
//! depth-buffer lifecycle tied to window resizes, and the keyboard dispatch
//! that routes edits to undo/redo.
//!
//! The GPU itself, the windowing toolkit and the reactive UI live outside
//! this crate; they consume the plans and decisions made here.

pub mod input;
pub mod joints;
pub mod render;
