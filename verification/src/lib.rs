//! Hand-tracked camera effects.
//!
//! Pipeline: camera -> hand landmarks -> gestures -> region -> masked effect.
//! Each of those stages is a trait with swappable implementations; see the
//! `gesture`, `region` and `effect` modules to add new behaviour.
//!
//! Everything here is pure: capture, inference and drawing happen elsewhere,
//! and hand their results in as plain values. Numbers are fixed-point, see
//! [`fixed`].

pub mod app;
pub mod camera;
pub mod cli;
pub mod effect;
pub mod fixed;
pub mod frame;
pub mod gesture;
pub mod logistic;
pub mod region;
pub mod render;
pub mod settings;
pub mod similar;
pub mod sort;
pub mod text;
pub mod tracking;
pub mod ui;
pub mod vector;
