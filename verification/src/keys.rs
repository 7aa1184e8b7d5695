//! Handles of images, fonts and font instances.

use vstd::prelude::*;

verus! {

/// A namespace of handles.
#[derive(Clone, Copy, Debug, PartialEq, Eq, Structural)]
pub struct IdNamespace(pub u32);

/// A blob image.
#[derive(Clone, Copy, Debug, PartialEq, Eq, Structural)]
pub struct ImageKey(pub IdNamespace, pub u32);

/// A font.
#[derive(Clone, Copy, Debug, PartialEq, Eq, Structural)]
pub struct FontKey(pub IdNamespace, pub u32);

/// A font at a size and with options.
#[derive(Clone, Copy, Debug, PartialEq, Eq, Structural)]
pub struct FontInstanceKey(pub IdNamespace, pub u32);

/// Offset in number of tiles.
#[derive(Clone, Copy, Debug, PartialEq, Eq, Structural)]
pub struct TileOffset {
    pub x: u16,
    pub y: u16,
}

/// The edge length of a tile.
pub type TileSize = u16;

} // verus!
