//! Fractory: the simulation logic of a game played on a self-similar
//! triangle fractal, with its contracts and laws proved by Verus.

pub mod orientation;
pub mod tile;
pub mod path;
pub mod path_model;
pub mod path_text;
pub mod recognizer;
pub mod symmetry;
pub mod fractal;
pub mod actions;
pub mod collide;
pub mod planet;
pub mod factory;
pub mod edit;
pub mod presets;
pub mod tringle;
pub mod ui;
pub mod boring;
