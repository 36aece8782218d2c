//! A small terminal-UI toolkit: a cell grid with a diff renderer, widgets
//! that paint into rectangles, an Elm-style counter, key dispatch, panels,
//! a text snapshot harness, a line-oriented scene format and a mini
//! process dashboard.

pub mod cellbuffer;
pub mod text;
pub mod widgets;
pub mod counter;
pub mod input;
pub mod harness;
pub mod scene;
pub mod sparkline;
pub mod panels;
pub mod ptop;
