//! The parts of the user interface that are plain logic: traits for
//! elements that tick and draw, the stages of a frame, view and control
//! modes, and the names of tiles.
use vstd::prelude::*;
use crate::path_text::{digits, push_digits};

verus! {

/// Something that advances by one tick.
pub trait Tick {
    fn tick(&mut self);
}

/// The shared state of a user interface.
pub trait Context: Default + Tick {}

/// Something that can draw itself in a context.
pub trait Draw {
    type Context: Context;

    fn draw(&self, ctx: Self::Context);
}

/// The stages of starting up.
#[derive(Debug, Clone, Copy, PartialEq, Eq, Structural, PartialOrd, Ord, Hash)]
pub enum StartupSet {
    Load,
    Cameras,
    Layout,
}

/// The stages of a frame.
#[derive(Debug, Clone, Copy, PartialEq, Eq, Structural, PartialOrd, Ord, Hash)]
pub enum UpdateSet {
    Input,
    Gui,
    Logic,
}

/// The stages after a frame.
#[derive(Debug, Clone, Copy, PartialEq, Eq, Structural, PartialOrd, Ord, Hash)]
pub enum PostUpdateSet {
    PreDespawn,
    OnDespawn,
    FinalDespawn,
}

/// How the keyboard moves the view: smoothly, or in steps.
#[derive(Debug, Clone, Copy, PartialEq, Eq, Structural, Default)]
pub enum KeyboardControlMode {
    #[default]
    Smooth,
    Snap,
}

impl KeyboardControlMode {
    /// Switches to the other mode.
    pub fn toggle(&mut self)
        ensures
            *final(self) == (match *old(self) {
                KeyboardControlMode::Smooth => KeyboardControlMode::Snap,
                KeyboardControlMode::Snap => KeyboardControlMode::Smooth,
            }),
    {
        *self = match *self {
            KeyboardControlMode::Smooth => KeyboardControlMode::Snap,
            KeyboardControlMode::Snap => KeyboardControlMode::Smooth,
        }
    }
}

/// How the fractal is shown: flat, or with gaps between subtriangles.
#[derive(Debug, Clone, Copy, PartialEq, Eq, Structural)]
pub enum ViewState {
    Flat,
    Shattered,
}

impl ViewState {
    /// Switches to the other view.
    pub fn cycle(&mut self)
        ensures
            *final(self) == (match *old(self) {
                ViewState::Flat => ViewState::Shattered,
                ViewState::Shattered => ViewState::Flat,
            }),
    {
        *self = match *self {
            ViewState::Flat => ViewState::Shattered,
            ViewState::Shattered => ViewState::Flat,
        }
    }
}

/// The name of a tile: its fragment's name, or its id in decimal when the
/// fragment has none.
pub fn tile_name(names: &[String], tile_id: usize) -> (r: String)
    ensures
        r@ == (if tile_id < names@.len() {
            names@[tile_id as int]@
        } else {
            digits(tile_id as nat)
        }),
{
    if tile_id < names.len() {
        names[tile_id].clone()
    } else {
        let mut out = String::new();
        push_digits(&mut out, tile_id as u64);
        out
    }
}

} // verus!
