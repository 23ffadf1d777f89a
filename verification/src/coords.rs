//! Coordinate-system metadata carried by every scene.
use vstd::prelude::*;

verus! {

/// The "up" axis a scene was authored against.
#[derive(Debug, Clone, Copy, PartialEq, Eq, Structural)]
pub enum UpAxis {
    /// Y-axis points up (glTF, three.js convention).
    Y,
    /// Z-axis points up (Blender, OpenUSD convention).
    Z,
}

/// Handedness of the coordinate system.
#[derive(Debug, Clone, Copy, PartialEq, Eq, Structural)]
pub enum Handedness {
    /// Right-handed (glTF, standard math).
    Right,
    /// Left-handed (DirectX, Unity).
    Left,
}

/// Per-scene coordinate-system convention.
#[derive(Debug, Clone, Copy, PartialEq, Eq, Structural)]
pub struct CoordinateSystem {
    /// Which axis points "up".
    pub up: UpAxis,
    /// Handedness of the basis.
    pub handedness: Handedness,
}

impl Default for CoordinateSystem {
    /// Y-up, right-handed: the glTF convention.
    fn default() -> (c: Self)
        ensures
            c == (CoordinateSystem { up: UpAxis::Y, handedness: Handedness::Right }),
    {
        CoordinateSystem { up: UpAxis::Y, handedness: Handedness::Right }
    }
}

/// The short label of an up axis.
pub open spec fn up_label_of(a: UpAxis) -> Seq<char> {
    match a {
        UpAxis::Y => "Y"@,
        UpAxis::Z => "Z"@,
    }
}

/// The short label of a handedness.
pub open spec fn handedness_label_of(h: Handedness) -> Seq<char> {
    match h {
        Handedness::Right => "right"@,
        Handedness::Left => "left"@,
    }
}

impl CoordinateSystem {
    /// The canonical short-form label for the up axis (`"Y"` or `"Z"`).
    pub fn up_label(&self) -> (r: &'static str)
        ensures
            r@ == up_label_of(self.up),
    {
        match self.up {
            UpAxis::Y => "Y",
            UpAxis::Z => "Z",
        }
    }

    /// The canonical short-form label for handedness (`"right"` or `"left"`).
    pub fn handedness_label(&self) -> (r: &'static str)
        ensures
            r@ == handedness_label_of(self.handedness),
    {
        match self.handedness {
            Handedness::Right => "right",
            Handedness::Left => "left",
        }
    }
}

} // verus!
