//! The tags that select a material and a camera mode.
use vstd::prelude::*;

verus! {

/// The closed set of materials; a draw call shades every fragment with one of them.
#[derive(Clone, Copy, Debug, PartialEq, Eq, Structural)]
pub enum ShaderType {
    Sun,
    RockyPlanet,
    GasGiant,
    Moon,
    RingedPlanet,
    Starfield,
    Ship,
}

/// How the camera follows the scene.
#[derive(Clone, Copy, Debug, PartialEq, Eq, Structural)]
pub enum CameraMode {
    Orbital,
    FirstPerson,
    Free,
}

} // verus!
